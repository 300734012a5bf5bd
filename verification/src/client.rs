use vstd::prelude::*;

use crate::game_match::{
    list_for, part_for, parts_distinct, sum_points, total_for, views, words_distinct, Match, MatchPhase,
    PlayerId, Submission, SubmissionView,
};
use crate::grid::{adjacent, path_error, spell};
use crate::session::{MatchNotice, PlayerIntent};
use crate::solver::{lemma_listed_total, lemma_listed_transitive, listed_before, listed_before_exec};
use crate::text::{chars_of, decimal, push_char, push_decimal, push_decimal_wide, push_str, string_of, to_upper, upper_case};

verus! {

/// The top-level screen of the game client.
#[derive(Debug, Clone, Copy, PartialEq, Eq, Hash, Structural)]
pub enum Screen {
    /// Content is loading.
    Loading,
    /// The menu.
    Menu,
    /// A match is shown.
    Match,
}

impl Default for Screen {
    /// The client starts by loading its content.
    fn default() -> (r: Self)
        ensures
            r == Screen::Loading,
    {
        Screen::Loading
    }
}

/// The part of a match that the client shows.
#[derive(Debug, Clone, Copy, PartialEq, Eq, Hash, Structural)]
pub enum RoundScreen {
    /// The board is being rolled.
    Rolling,
    /// Words are being found.
    Playing,
    /// A round is reviewed.
    Review,
}

impl Default for RoundScreen {
    /// A match is first shown rolling.
    fn default() -> (r: Self)
        ensures
            r == RoundScreen::Rolling,
    {
        RoundScreen::Rolling
    }
}

/// The screen that shows a match phase.
pub open spec fn round_screen_for(phase: MatchPhase) -> RoundScreen {
    match phase {
        MatchPhase::Ready | MatchPhase::Rolling => RoundScreen::Rolling,
        MatchPhase::Playing => RoundScreen::Playing,
        MatchPhase::Review | MatchPhase::Complete => RoundScreen::Review,
    }
}

/// The screen that shows a match phase: rolling before play, playing, and review once the
/// round (or the match) is over.
pub fn projected_round_screen(phase: MatchPhase) -> (r: RoundScreen)
    ensures
        r == round_screen_for(phase),
{
    match phase {
        MatchPhase::Ready | MatchPhase::Rolling => RoundScreen::Rolling,
        MatchPhase::Playing => RoundScreen::Playing,
        MatchPhase::Review | MatchPhase::Complete => RoundScreen::Review,
    }
}

/// What the player is entering: the cells picked so far, the letters typed so far, and the
/// last message shown.
#[derive(Debug)]
pub struct InputDraft {
    pub path: Vec<usize>,
    pub typed: String,
    pub feedback: String,
}

impl Default for InputDraft {
    /// Nothing entered and no message.
    fn default() -> (r: Self)
        ensures
            r.path@.len() == 0,
            r.typed@.len() == 0,
            r.feedback@.len() == 0,
    {
        InputDraft { path: Vec::new(), typed: String::new(), feedback: String::new() }
    }
}

/// Takes back the last entry: the last typed letter while there is typed text, else the
/// last picked cell (if any). The message stays.
pub fn delete_last_input(input: &mut InputDraft)
    ensures
        old(input).typed@.len() > 0 ==> final(input).typed@ == old(input).typed@.drop_last()
            && final(input).path@ == old(input).path@,
        old(input).typed@.len() == 0 ==> final(input).typed@ == old(input).typed@
            && final(input).path@ == (if old(input).path@.len() > 0 {
            old(input).path@.drop_last()
        } else {
            old(input).path@
        }),
        final(input).feedback@ == old(input).feedback@,
{
    let letters = chars_of(input.typed.as_str());
    if letters.len() == 0 {
        let _ = input.path.pop();
    } else {
        let mut kept: Vec<char> = Vec::new();
        let mut i: usize = 0;
        while i + 1 < letters.len()
            invariant
                letters.len() > 0,
                i + 1 <= letters.len(),
                kept@ == letters@.take(i as int),
            decreases letters.len() - i,
        {
            kept.push(letters[i]);
            assert(letters@.take(i + 1) =~= letters@.take(i as int).push(letters@[i as int]));
            i += 1;
        }
        assert(kept@ =~= letters@.drop_last());
        input.typed = string_of(kept.as_slice());
    }
}

/// The number of faces a drawn cube shows.
pub open spec fn drawn_faces() -> nat {
    6
}

/// The labels of `faces` other than the one at `selected`, in order.
pub open spec fn other_faces(faces: Seq<Seq<char>>, selected: int) -> Seq<Seq<char>> {
    faces.take(selected) + faces.skip(selected + 1)
}

/// The selected label followed by as many other labels as fit on the drawn faces.
pub open spec fn leading_labels(faces: Seq<Seq<char>>, selected: int) -> Seq<Seq<char>> {
    let others = other_faces(faces, selected);
    seq![faces[selected]] + if others.len() < 5 {
        others
    } else {
        others.take(5)
    }
}

/// The labels drawn on the six faces of a cube: its own labels when it has six, else the
/// selected label on top followed by the others, repeated from the start to fill six faces.
pub open spec fn shown_labels(faces: Seq<Seq<char>>, selected: int) -> Seq<Seq<char>> {
    if faces.len() == drawn_faces() {
        faces
    } else {
        let lead = leading_labels(faces, selected);
        Seq::new(drawn_faces(), |i: int| lead[i % (lead.len() as int)])
    }
}

/// The labels to draw on the six faces of a cube with labels `faces`, showing `selected` on
/// top: the cube's own labels when it has six; otherwise the selected label first, then the
/// others in order, repeated from the start until six faces are filled.
pub fn displayed_labels<'a>(faces: &'a [String], selected: usize) -> (r: Vec<&'a str>)
    requires
        faces@.len() == 6 || selected < faces@.len(),
    ensures
        r@.map_values(|s: &str| s@) == shown_labels(faces@.map_values(|s: String| s@), selected as int),
{
    let ghost fv = faces@.map_values(|s: String| s@);
    let mut labels: Vec<&'a str> = Vec::new();
    if faces.len() == 6 {
        let mut i: usize = 0;
        while i < faces.len()
            invariant
                i <= faces.len(),
                fv == faces@.map_values(|s: String| s@),
                labels@.map_values(|s: &str| s@) == fv.take(i as int),
            decreases faces.len() - i,
        {
            let ghost before = labels@;
            labels.push(faces[i].as_str());
            assert(labels@.map_values(|s: &str| s@) =~= before.map_values(|s: &str| s@).push(fv[i as int]));
            assert(fv.take(i + 1) =~= fv.take(i as int).push(fv[i as int]));
            i += 1;
        }
        assert(fv.take(faces.len() as int) =~= fv);
        return labels;
    }
    let ghost others = other_faces(fv, selected as int);
    labels.push(faces[selected].as_str());
    assert(labels@.map_values(|s: &str| s@) =~= seq![fv[selected as int]]);
    let mut i: usize = 0;
    let mut taken: usize = 0;
    while i < faces.len() && taken < 5
        invariant
            i <= faces.len(),
            selected < faces.len(),
            fv == faces@.map_values(|s: String| s@),
            others == other_faces(fv, selected as int),
            taken <= 5,
            taken == (if i <= selected { i as int } else { i - 1 }),
            labels@.map_values(|s: &str| s@) == seq![fv[selected as int]] + others.take(taken as int),
        decreases faces.len() - i,
    {
        if i != selected {
            let ghost before = labels@;
            labels.push(faces[i].as_str());
            proof {
                let k = taken as int;
                assert(others[k] == fv[i as int]);
                assert(others.take(k + 1) =~= others.take(k).push(others[k]));
                assert(labels@.map_values(|s: &str| s@) =~= before.map_values(|s: &str| s@).push(fv[i as int]));
            }
            taken += 1;
        }
        i += 1;
    }
    let ghost lead = leading_labels(fv, selected as int);
    proof {
        if others.len() < 5 {
            assert(taken == others.len());
            assert(others.take(taken as int) =~= others);
        }
        assert(labels@.map_values(|s: &str| s@) =~= lead);
    }
    let available = labels.len();
    proof {
        assert forall|k: int| 0 <= k < labels@.len() implies (#[trigger] labels@[k])@ == lead[k % (available as int)] by {
            assert(k % (available as int) == k) by (nonlinear_arith)
                requires
                    0 <= k < available,
            ;
            assert(labels@.map_values(|s: &str| s@)[k] == labels@[k]@);
        }
    }
    while labels.len() < 6
        invariant
            available == lead.len(),
            1 <= available <= 6,
            available <= labels@.len() <= 6,
            forall|k: int| 0 <= k < labels@.len() ==> (#[trigger] labels@[k])@ == lead[k % (available as int)],
        decreases 6 - labels@.len(),
    {
        let n = labels.len();
        let next = labels[n % available];
        labels.push(next);
        proof {
            let m = (n % available) as int;
            assert(m % (available as int) == m) by (nonlinear_arith)
                requires
                    0 <= m < available,
            ;
            assert(labels@[n as int]@ == lead[m]);
        }
    }
    proof {
        assert(labels@.map_values(|s: &str| s@) =~= shown_labels(fv, selected as int));
    }
    labels
}


/// The word that the draft shows: the typed letters, or else what the picked cells spell on
/// the board in play; nothing when there is no round or the cells are not a path on it.
pub open spec fn draft_text(game: Match, typed: Seq<char>, path: Seq<usize>) -> Seq<char> {
    if typed.len() > 0 {
        typed
    } else {
        match game.round_view() {
            Some(rd) => if path_error(rd.board_view().board_grid().side(), path) is None {
                spell(rd.board_view().board_grid().cell_seq(), path)
            } else {
                Seq::empty()
            },
            None => Seq::empty(),
        }
    }
}

/// The word that the draft shows: the typed letters, or else what the picked cells spell on
/// the board in play (nothing when there is no round or the cells are not a path on it).
pub fn draft_word(game: &Match, input: &InputDraft) -> (r: String)
    ensures
        r@ == draft_text(*game, input.typed@, input.path@),
{
    if !input.typed.as_str().is_empty() {
        return input.typed.clone();
    }
    match game.current_round() {
        Some(round) => match round.board().grid().word_for_path(input.path.as_slice()) {
            Ok(w) => w,
            Err(_) => String::new(),
        },
        None => String::new(),
    }
}

/// The points of `pid` in the last finished round, or 0.
pub open spec fn last_round_points(game: Match, pid: PlayerId) -> nat {
    let results = game.results_view();
    if results.len() == 0 {
        0
    } else {
        match part_for(results.last().parts(), pid) {
            Some(p) => p.3,
            None => 0,
        }
    }
}

/// The round total that the display shows for `pid`: the points accepted so far in the round
/// in play (0 for a player not in the match), or else the points of the last finished round.
pub open spec fn shown_round_total(game: Match, pid: PlayerId) -> nat {
    match game.round_view() {
        Some(rd) => if ids_of_match(game).contains(pid) {
            sum_points(list_for(rd.ids(), rd.lists(), pid))
        } else {
            0
        },
        None => last_round_points(game, pid),
    }
}

/// The identifiers of the players of a match.
pub open spec fn ids_of_match(game: Match) -> Seq<PlayerId> {
    crate::game_match::ids_of(game.player_seq())
}

/// The round total that the display shows for the player at this machine.
pub fn round_total(game: &Match) -> (r: usize)
    requires
        game.round_view() matches Some(rd) ==> sum_points(list_for(rd.ids(), rd.lists(), PlayerId::new_spec(0)))
            <= usize::MAX,
    ensures
        r == shown_round_total(*game, PlayerId::new_spec(0)),
{
    let player = PlayerId::new(0);
    if game.current_round().is_some() {
        match game.current_score(player) {
            Ok(v) => v,
            Err(_) => 0,
        }
    } else {
        let done = game.completed_rounds();
        if done.len() == 0 {
            0
        } else {
            match done[done.len() - 1].player(player) {
                Some(p) => p.score(),
                None => 0,
            }
        }
    }
}

/// The view of a listed entry: the submission and whether it was canceled.
pub open spec fn entry_views(s: Seq<(Submission, bool)>) -> Seq<(SubmissionView, bool)> {
    s.map_values(|e: (Submission, bool)| (e.0@, e.1))
}

/// The entries that the word list shows for `pid`, before sorting: the submissions of the
/// round in play; or else the scored and then the canceled submissions of the last finished
/// round, the latter marked.
pub open spec fn shown_entries(game: Match, pid: PlayerId) -> Seq<(SubmissionView, bool)> {
    match game.round_view() {
        Some(rd) => list_for(rd.ids(), rd.lists(), pid).map_values(|x: SubmissionView| (x, false)),
        None => if game.results_view().len() > 0 {
            match part_for(game.results_view().last().parts(), pid) {
                Some(p) => p.1.map_values(|x: SubmissionView| (x, false)) + p.2.map_values(
                    |x: SubmissionView| (x, true),
                ),
                None => Seq::empty(),
            }
        } else {
            Seq::empty()
        },
    }
}

/// No two entries have the same word.
pub open spec fn entry_words_distinct(s: Seq<(SubmissionView, bool)>) -> bool {
    forall|k1: int, k2: int| 0 <= k1 < k2 < s.len() ==> (#[trigger] s[k1]).0.1 != (#[trigger] s[k2]).0.1
}

/// `r` holds the entries of `s`, each once, longest word first and words of one length in
/// code-point order.
pub open spec fn sorted_entries(s: Seq<(SubmissionView, bool)>, r: Seq<(SubmissionView, bool)>) -> bool {
    &&& r.len() == s.len()
    &&& forall|i: int| 0 <= i < r.len() ==> s.contains(#[trigger] r[i])
    &&& forall|i: int| 0 <= i < s.len() ==> r.contains(#[trigger] s[i])
    &&& forall|i: int, j: int| 0 <= i < j < r.len() ==> listed_before((#[trigger] r[i]).0.1, (#[trigger] r[j]).0.1)
}

/// Orders entries with distinct words: longest word first, words of one length in
/// code-point order.
pub fn sort_entries(entries: Vec<(Submission, bool)>) -> (r: Vec<(Submission, bool)>)
    requires
        entry_words_distinct(entry_views(entries@)),
    ensures
        sorted_entries(entry_views(entries@), entry_views(r@)),
{
    let ghost all = entry_views(entries@);
    let mut remaining = entries;
    let mut result: Vec<(Submission, bool)> = Vec::new();
    while remaining.len() > 0
        invariant
            entry_words_distinct(entry_views(remaining@)),
            result.len() + remaining.len() == all.len(),
            forall|e: int| 0 <= e < remaining.len() ==> all.contains(#[trigger] entry_views(remaining@)[e]),
            forall|e: int| 0 <= e < result.len() ==> all.contains(#[trigger] entry_views(result@)[e]),
            forall|e: int| 0 <= e < all.len() ==> entry_views(remaining@).contains(#[trigger] all[e])
                || entry_views(result@).contains(all[e]),
            forall|i: int, j: int|
                0 <= i < j < result.len() ==> listed_before(
                    (#[trigger] entry_views(result@)[i]).0.1,
                    (#[trigger] entry_views(result@)[j]).0.1,
                ),
            forall|i: int, e: int|
                0 <= i < result.len() && 0 <= e < remaining.len() ==> listed_before(
                    (#[trigger] entry_views(result@)[i]).0.1,
                    (#[trigger] entry_views(remaining@)[e]).0.1,
                ),
        decreases remaining.len(),
    {
        let ghost rem = entry_views(remaining@);
        let mut best: usize = 0;
        let mut e: usize = 1;
        while e < remaining.len()
            invariant
                rem == entry_views(remaining@),
                entry_words_distinct(rem),
                remaining.len() > 0,
                best < e <= remaining.len(),
                forall|x: int| 0 <= x < e && x != best ==> listed_before(rem[best as int].0.1, (#[trigger] rem[x]).0.1),
            decreases remaining.len() - e,
        {
            let a = chars_of(remaining[e].0.word());
            let b = chars_of(remaining[best].0.word());
            if listed_before_exec(a.as_slice(), b.as_slice()) {
                proof {
                    assert forall|x: int| 0 <= x < e + 1 && x != e implies listed_before(rem[e as int].0.1, (#[trigger] rem[x]).0.1) by {
                        if x != best {
                            lemma_listed_transitive(rem[e as int].0.1, rem[best as int].0.1, rem[x].0.1);
                        }
                    }
                }
                best = e;
            } else {
                proof {
                    let (lo, hi) = if best < e { (best as int, e as int) } else { (e as int, best as int) };
                    assert(rem[lo].0.1 != rem[hi].0.1);
                    lemma_listed_total(rem[best as int].0.1, rem[e as int].0.1);
                }
            }
            e += 1;
        }
        let ghost before_rem = remaining@;
        let ghost before_res = result@;
        let item = remaining.remove(best);
        result.push(item);
        proof {
            let nr = entry_views(remaining@);
            let ns = entry_views(result@);
            let br = entry_views(before_rem);
            let bs = entry_views(before_res);
            assert(br == rem);
            assert(nr =~= rem.remove(best as int));
            assert(ns =~= bs.push(rem[best as int]));
            assert forall|k1: int, k2: int| 0 <= k1 < k2 < nr.len() implies (#[trigger] nr[k1]).0.1 != (#[trigger] nr[k2]).0.1 by {
                let a = if k1 < best { k1 } else { k1 + 1 };
                let b = if k2 < best { k2 } else { k2 + 1 };
                assert(nr[k1] == rem[a] && nr[k2] == rem[b]);
            }
            assert forall|x: int| 0 <= x < nr.len() implies all.contains(#[trigger] nr[x]) by {
                let a = if x < best { x } else { x + 1 };
                assert(nr[x] == rem[a]);
            }
            assert forall|x: int| 0 <= x < ns.len() implies all.contains(#[trigger] ns[x]) by {
                if x < bs.len() {
                    assert(ns[x] == bs[x]);
                }
            }
            assert forall|x: int| 0 <= x < all.len() implies nr.contains(#[trigger] all[x]) || ns.contains(all[x]) by {
                if rem.contains(all[x]) {
                    let k = choose|k: int| 0 <= k < rem.len() && rem[k] == all[x];
                    if k == best {
                        assert(ns[ns.len() - 1] == all[x]);
                    } else if k < best {
                        assert(nr[k] == all[x]);
                    } else {
                        assert(nr[k - 1] == all[x]);
                    }
                } else {
                    let k = choose|k: int| 0 <= k < bs.len() && bs[k] == all[x];
                    assert(ns[k] == all[x]);
                }
            }
            assert forall|i: int, j: int| 0 <= i < j < ns.len() implies listed_before(
                (#[trigger] ns[i]).0.1,
                (#[trigger] ns[j]).0.1,
            ) by {
                assert(ns[i] == bs[i]);
                if j < bs.len() {
                    assert(ns[j] == bs[j]);
                } else {
                    assert(ns[j] == rem[best as int]);
                }
            }
            assert forall|i: int, x: int| 0 <= i < ns.len() && 0 <= x < nr.len() implies listed_before(
                (#[trigger] ns[i]).0.1,
                (#[trigger] nr[x]).0.1,
            ) by {
                let a = if x < best { x } else { x + 1 };
                assert(nr[x] == rem[a]);
                if i < bs.len() {
                    assert(ns[i] == bs[i]);
                } else {
                    assert(ns[i] == rem[best as int]);
                }
            }
        }
    }
    proof {
        let ns = entry_views(result@);
        assert forall|x: int| 0 <= x < all.len() implies ns.contains(#[trigger] all[x]) by {
            assert(!entry_views(remaining@).contains(all[x]));
        }
    }
    result
}

/// The entries of the word list for the player at this machine: the submissions of the round
/// in play, or else the scored and the canceled (marked) submissions of the last finished
/// round; longest word first, words of one length in code-point order.
pub fn hud_entries(game: &Match) -> (r: Vec<(Submission, bool)>)
    ensures
        sorted_entries(shown_entries(*game, PlayerId::new_spec(0)), entry_views(r@)),
{
    let player = PlayerId::new(0);
    let ghost shown = shown_entries(*game, player);
    let mut entries: Vec<(Submission, bool)> = Vec::new();
    match game.current_round() {
        Some(round) => {
            let subs = round.submissions(player);
            let ghost ids = round.ids();
            let ghost lists = round.lists();
            proof {
                crate::game_match::lemma_first_index(ids, player);
            }
            let mut k: usize = 0;
            while k < subs.len()
                invariant
                    k <= subs.len(),
                    views(subs@) == list_for(ids, lists, player),
                    shown == list_for(ids, lists, player).map_values(|x: SubmissionView| (x, false)),
                    entry_views(entries@) == shown.take(k as int),
                decreases subs.len() - k,
            {
                let ghost before = entries@;
                entries.push((subs[k].duplicate(), false));
                assert(entry_views(entries@) =~= entry_views(before).push((subs@[k as int]@, false)));
                assert(shown.take(k + 1) =~= shown.take(k as int).push(shown[k as int]));
                k += 1;
            }
            assert(shown.take(subs.len() as int) =~= shown);
            proof {
                let i = crate::game_match::first_index(ids, player);
                if i >= 0 {
                    assert forall|k1: int, k2: int| 0 <= k1 < k2 < shown.len() implies (#[trigger] shown[k1]).0.1
                        != (#[trigger] shown[k2]).0.1 by {
                        assert(shown[k1].0 == lists[i][k1]);
                        assert(shown[k2].0 == lists[i][k2]);
                    }
                }
            }
        },
        None => {
            let done = game.completed_rounds();
            if done.len() > 0 {
                let last = &done[done.len() - 1];
                match last.player(player) {
                    Some(p) => {
                        let scored = p.scored();
                        let canceled = p.canceled();
                        let ghost sv = views(scored@).map_values(|x: SubmissionView| (x, false));
                        let ghost cv = views(canceled@).map_values(|x: SubmissionView| (x, true));
                        assert(shown =~= sv + cv);
                        let mut k: usize = 0;
                        while k < scored.len()
                            invariant
                                k <= scored.len(),
                                sv == views(scored@).map_values(|x: SubmissionView| (x, false)),
                                entry_views(entries@) == sv.take(k as int),
                            decreases scored.len() - k,
                        {
                            let ghost before = entries@;
                            entries.push((scored[k].duplicate(), false));
                            assert(entry_views(entries@) =~= entry_views(before).push((scored@[k as int]@, false)));
                            assert(sv.take(k + 1) =~= sv.take(k as int).push(sv[k as int]));
                            k += 1;
                        }
                        assert(sv.take(scored.len() as int) =~= sv);
                        let mut k: usize = 0;
                        while k < canceled.len()
                            invariant
                                k <= canceled.len(),
                                cv == views(canceled@).map_values(|x: SubmissionView| (x, true)),
                                entry_views(entries@) == sv + cv.take(k as int),
                            decreases canceled.len() - k,
                        {
                            let ghost before = entries@;
                            entries.push((canceled[k].duplicate(), true));
                            assert(entry_views(entries@) =~= entry_views(before).push((canceled@[k as int]@, true)));
                            assert(cv.take(k + 1) =~= cv.take(k as int).push(cv[k as int]));
                            k += 1;
                        }
                        assert(cv.take(canceled.len() as int) =~= cv);
                        proof {
                            let parts = done@[done.len() - 1].parts();
                            assert(parts_distinct(parts));
                            let ids = parts.map_values(|x: crate::game_match::ResultView| x.0);
                            crate::game_match::lemma_first_index(ids, player);
                            let i = crate::game_match::first_index(ids, player);
                            let both = parts[i].1 + parts[i].2;
                            assert(words_distinct(both));
                            assert forall|k1: int, k2: int| 0 <= k1 < k2 < shown.len() implies (#[trigger] shown[k1]).0.1
                                != (#[trigger] shown[k2]).0.1 by {
                                assert(shown[k1].0 == both[k1]);
                                assert(shown[k2].0 == both[k2]);
                            }
                        }
                    },
                    None => {
                        assert(shown =~= Seq::<(SubmissionView, bool)>::empty());
                    },
                }
            } else {
                assert(shown =~= Seq::<(SubmissionView, bool)>::empty());
            }
        },
    }
    assert(entry_views(entries@) == shown);
    sort_entries(entries)
}

/// The heading of the review screen.
pub open spec fn review_title_text(game: Match) -> Seq<char> {
    if game.phase_view() == MatchPhase::Complete {
        "MATCH COMPLETE"@
    } else {
        "ROUND "@ + decimal(game.results_view().len()) + " COMPLETE"@
    }
}

/// The heading of the review screen: the match is complete, or the number of the round
/// just completed.
pub fn review_title(game: &Match) -> (r: String)
    ensures
        r@ == review_title_text(*game),
{
    if game.phase() == MatchPhase::Complete {
        String::from_str("MATCH COMPLETE")
    } else {
        let mut s = String::from_str("ROUND ");
        push_decimal(&mut s, game.completed_rounds().len());
        push_str(&mut s, " COMPLETE");
        s
    }
}

/// The number of scored words of `pid` in the last finished round, or 0.
pub open spec fn last_round_words(game: Match, pid: PlayerId) -> nat {
    let results = game.results_view();
    if results.len() == 0 {
        0
    } else {
        match part_for(results.last().parts(), pid) {
            Some(p) => p.1.len(),
            None => 0,
        }
    }
}

/// The summary of the review screen for `pid`: rounds played and the final score once the
/// match is complete; else the words and points of the last round and the match total.
pub open spec fn review_summary_text(game: Match, pid: PlayerId) -> Seq<char> {
    let total = if ids_of_match(game).contains(pid) {
        total_for(game.results_view(), pid)
    } else {
        0
    };
    if game.phase_view() == MatchPhase::Complete {
        decimal(game.results_view().len()) + " rounds played\nFINAL SCORE: "@ + decimal(total)
    } else {
        "Words found: "@ + decimal(last_round_words(game, pid)) + "\nRound score: "@ + decimal(
            last_round_points(game, pid),
        ) + "\nMatch total: "@ + decimal(total)
    }
}

/// The summary of the review screen for the player at this machine.
pub fn review_summary(game: &Match) -> (r: String)
    requires
        total_for(game.results_view(), PlayerId::new_spec(0)) <= usize::MAX,
    ensures
        r@ == review_summary_text(*game, PlayerId::new_spec(0)),
{
    let player = PlayerId::new(0);
    let done = game.completed_rounds();
    let (round_score, word_count) = if done.len() == 0 {
        (0, 0)
    } else {
        match done[done.len() - 1].player(player) {
            Some(p) => (p.score(), p.scored().len()),
            None => (0, 0),
        }
    };
    let total = match game.total_score(player) {
        Ok(t) => t,
        Err(_) => 0,
    };
    if game.phase() == MatchPhase::Complete {
        let mut s = String::new();
        push_decimal(&mut s, done.len());
        push_str(&mut s, " rounds played\nFINAL SCORE: ");
        push_decimal(&mut s, total);
        assert(s@ =~= review_summary_text(*game, player));
        s
    } else {
        let mut s = String::from_str("Words found: ");
        push_decimal(&mut s, word_count);
        push_str(&mut s, "\nRound score: ");
        push_decimal(&mut s, round_score);
        push_str(&mut s, "\nMatch total: ");
        push_decimal(&mut s, total);
        assert(s@ =~= review_summary_text(*game, player));
        s
    }
}


/// The draft as the display shows it: the word in upper case.
pub fn draft_display(game: &Match, input: &InputDraft) -> (r: String)
    ensures
        r@ == upper_case(draft_text(*game, input.typed@, input.path@)),
{
    let w = draft_word(game, input);
    to_upper(w.as_str())
}

/// The label of an entry of the word list: the word in upper case, marked when canceled.
pub open spec fn entry_label_text(e: (SubmissionView, bool)) -> Seq<char> {
    if e.1 {
        upper_case(e.0.1) + " (DUPLICATE)"@
    } else {
        upper_case(e.0.1)
    }
}

/// The label of an entry of the word list: the word in upper case, marked when canceled.
pub fn entry_label(entry: &(Submission, bool)) -> (r: String)
    ensures
        r@ == entry_label_text((entry.0@, entry.1)),
{
    let mut s = to_upper(entry.0.word());
    if entry.1 {
        push_str(&mut s, " (DUPLICATE)");
    }
    s
}

/// A draft with its path and its typed letters cleared and the message kept.
pub open spec fn cleared(before: InputDraft, after: InputDraft) -> bool {
    &&& after.path@.len() == 0
    &&& after.typed@.len() == 0
    &&& after.feedback@ == before.feedback@
}

/// Typed text is added to the draft, and the picked cells are dropped.
pub fn type_text(input: &mut InputDraft, text: &str)
    ensures
        final(input).typed@ == old(input).typed@ + text@,
        final(input).path@.len() == 0,
        final(input).feedback@ == old(input).feedback@,
{
    push_str(&mut input.typed, text);
    input.path.clear();
}

/// Drops the whole draft, keeping the message.
pub fn clear_draft(input: &mut InputDraft)
    ensures
        cleared(*old(input), *final(input)),
{
    input.path.clear();
    input.typed = String::new();
}

/// Sends the draft: the typed word if there is one, else the picked cells; the draft is
/// then cleared.
pub fn submit_draft(input: &mut InputDraft) -> (r: PlayerIntent)
    ensures
        old(input).typed@.len() == 0 ==> (r matches PlayerIntent::SubmitPath(p) && p@ == old(input).path@),
        old(input).typed@.len() > 0 ==> (r matches PlayerIntent::SubmitText(t) && t@ == old(input).typed@),
        cleared(*old(input), *final(input)),
{
    let intent = if input.typed.as_str().is_empty() {
        let mut p: Vec<usize> = Vec::new();
        std::mem::swap(&mut p, &mut input.path);
        PlayerIntent::SubmitPath(p)
    } else {
        let mut t = String::new();
        std::mem::swap(&mut t, &mut input.typed);
        PlayerIntent::SubmitText(t)
    };
    input.path.clear();
    input.typed = String::new();
    intent
}

/// What picking cell `cell` does to the draft of a match: outside play it asks to wait;
/// a cell already on the path or not next to the last one is refused with a message;
/// otherwise it extends the path, drops the typed letters and shows the word so far.
pub fn select_cell(input: &mut InputDraft, game: &Match, cell: usize)
    requires
        game.phase_view() == MatchPhase::Playing && !old(input).path@.contains(cell) && (old(input).path@.len()
            == 0 || (cell < game.round_view().unwrap().board_view().board_grid().side()
            * game.round_view().unwrap().board_view().board_grid().side() && adjacent(
            game.round_view().unwrap().board_view().board_grid().side(),
            old(input).path@.last() as int,
            cell as int,
        ))) ==> path_error(game.round_view().unwrap().board_view().board_grid().side(), old(input).path@.push(cell))
            is None,
    ensures
        game.phase_view() != MatchPhase::Playing ==> final(input).path@ == old(input).path@ && final(input).typed@
            == old(input).typed@ && final(input).feedback@ == "Wait for the dice to settle."@,
        game.phase_view() == MatchPhase::Playing ==> {
            let g = game.round_view().unwrap().board_view().board_grid();
            let p = old(input).path@;
            if p.contains(cell) {
                final(input).path@ == p && final(input).typed@ == old(input).typed@ && final(input).feedback@
                    == "A die cannot be reused."@
            } else if p.len() > 0 && !(cell < g.side() * g.side() && adjacent(g.side(), p.last() as int, cell as int)) {
                final(input).path@ == p && final(input).typed@ == old(input).typed@ && final(input).feedback@
                    == "Choose an adjacent die."@
            } else {
                final(input).path@ == p.push(cell) && final(input).typed@.len() == 0 && final(input).feedback@
                    == "Selected "@ + upper_case(spell(g.cell_seq(), p.push(cell)))
            }
        },
{
    if game.phase() != MatchPhase::Playing {
        input.feedback = String::from_str("Wait for the dice to settle.");
    } else {
        let round = match game.current_round() {
            Some(round) => round,
            None => vstd::pervasive::unreached(),
        };
        let grid = round.board().grid();
        if path_has(&input.path, cell) {
            input.feedback = String::from_str("A die cannot be reused.");
        } else if input.path.len() > 0 && !touches(grid, input.path[input.path.len() - 1], cell) {
            input.feedback = String::from_str("Choose an adjacent die.");
        } else {
            input.path.push(cell);
            input.typed = String::new();
            let word = match grid.word_for_path(input.path.as_slice()) {
                Ok(w) => w,
                Err(_) => vstd::pervasive::unreached(),
            };
            let upper = to_upper(word.as_str());
            let mut feedback = String::from_str("Selected ");
            push_str(&mut feedback, upper.as_str());
            input.feedback = feedback;
        }
    }
}

/// Whether the path holds the cell.
fn path_has(path: &Vec<usize>, cell: usize) -> (r: bool)
    ensures
        r == path@.contains(cell),
{
    let mut k: usize = 0;
    while k < path.len()
        invariant
            k <= path.len(),
            forall|j: int| 0 <= j < k ==> path@[j] != cell,
        decreases path.len() - k,
    {
        if path[k] == cell {
            return true;
        }
        k += 1;
    }
    false
}

/// Whether `cell` is on the board and touches `from`.
fn touches(grid: &crate::grid::WordGrid, from: usize, cell: usize) -> (r: bool)
    ensures
        r == (cell < grid.side() * grid.side() && adjacent(grid.side(), from as int, cell as int)),
{
    let near = grid.neighbors(from);
    let mut j: usize = 0;
    while j < near.len()
        invariant
            j <= near.len(),
            forall|x: int| 0 <= x < j ==> near@[x] != cell,
            forall|k: int|
                0 <= k < near@.len() ==> (#[trigger] near@[k]) < grid.side() * grid.side() && adjacent(
                    grid.side(),
                    from as int,
                    near@[k] as int,
                ),
        decreases near.len() - j,
    {
        if near[j] == cell {
            return true;
        }
        j += 1;
    }
    proof {
        if cell < grid.side() * grid.side() && adjacent(grid.side(), from as int, cell as int) {
            assert(near@.contains(cell));
        }
    }
    false
}

/// What a notice does to the draft: a new round clears it and says the dice are rolling;
/// the start of play invites words; an accepted word is announced with its points; a refusal
/// shows its reason; the end of a round clears the draft and asks for the review; the end of
/// the match says so; leaving clears the draft.
pub fn consume_notice(input: &mut InputDraft, notice: &MatchNotice)
    ensures
        match *notice {
            MatchNotice::RoundStarted => final(input).path@.len() == 0 && final(input).typed@.len() == 0
                && final(input).feedback@ == "Rolling the dice…"@,
            MatchNotice::RoundBegan => final(input).path@ == old(input).path@ && final(input).typed@ == old(input).typed@
                && final(input).feedback@ == "Go! Click adjacent dice or type a word."@,
            MatchNotice::SubmissionAccepted(s) => final(input).path@ == old(input).path@ && final(input).typed@
                == old(input).typed@ && final(input).feedback@ == "Accepted "@ + upper_case(s@.1) + " (+"@ + decimal(
                s@.3,
            ) + ")"@,
            MatchNotice::SubmissionRejected(m) => final(input).path@ == old(input).path@ && final(input).typed@
                == old(input).typed@ && final(input).feedback@ == m@,
            MatchNotice::RoundFinished(_) => final(input).path@.len() == 0 && final(input).typed@.len() == 0
                && final(input).feedback@ == "Time! Review your round."@,
            MatchNotice::MatchFinished => final(input).path@ == old(input).path@ && final(input).typed@
                == old(input).typed@ && final(input).feedback@ == "Match complete."@,
            MatchNotice::MatchExited => cleared(*old(input), *final(input)),
        },
{
    match notice {
        MatchNotice::RoundStarted => {
            clear_draft(input);
            input.feedback = String::from_str("Rolling the dice…");
        },
        MatchNotice::RoundBegan => {
            input.feedback = String::from_str("Go! Click adjacent dice or type a word.");
        },
        MatchNotice::SubmissionAccepted(s) => {
            let mut f = String::from_str("Accepted ");
            let upper = to_upper(s.word());
            push_str(&mut f, upper.as_str());
            push_str(&mut f, " (+");
            push_decimal(&mut f, s.base_score());
            push_str(&mut f, ")");
            input.feedback = f;
        },
        MatchNotice::SubmissionRejected(m) => {
            input.feedback = m.clone();
        },
        MatchNotice::RoundFinished(_) => {
            clear_draft(input);
            input.feedback = String::from_str("Time! Review your round.");
        },
        MatchNotice::MatchFinished => {
            input.feedback = String::from_str("Match complete.");
        },
        MatchNotice::MatchExited => {
            clear_draft(input);
        },
    }
}


/// A number of at least two digits, with a leading zero below ten.
pub open spec fn two_digits(n: nat) -> Seq<char> {
    if n < 10 {
        seq!['0'] + decimal(n)
    } else {
        decimal(n)
    }
}

/// The round clock: minutes and seconds, two digits each at least, or an infinity sign when
/// the round has no time limit.
pub open spec fn clock_text(seconds: Option<u64>) -> Seq<char> {
    match seconds {
        None => "∞"@,
        Some(s) => two_digits((s / 60) as nat) + seq![':'] + two_digits((s % 60) as nat),
    }
}

fn push_two_digits(s: &mut String, n: u64)
    ensures
        final(s)@ == old(s)@ + two_digits(n as nat),
{
    if n < 10 {
        push_char(s, '0');
        push_decimal_wide(s, n as u128);
        assert(s@ =~= old(s)@ + (seq!['0'] + decimal(n as nat)));
    } else {
        push_decimal_wide(s, n as u128);
    }
}

/// Shows the time left of a round, given in whole seconds (rounded up), as minutes and
/// seconds with two digits each at least; an infinity sign when the round has no limit.
pub fn format_clock(seconds: Option<u64>) -> (r: String)
    ensures
        r@ == clock_text(seconds),
{
    match seconds {
        None => String::from_str("∞"),
        Some(total) => {
            let mut s = String::new();
            push_two_digits(&mut s, total / 60);
            push_char(&mut s, ':');
            push_two_digits(&mut s, total % 60);
            assert(s@ =~= clock_text(seconds));
            s
        },
    }
}


/// The clock that the display shows: "00:00" while no round is in play, else the time left
/// of the round, given in whole seconds (rounded up), or the infinity sign for an endless
/// round.
pub open spec fn hud_clock_text(game: Match, seconds: Option<u64>) -> Seq<char> {
    if game.round_view() is None {
        "00:00"@
    } else {
        clock_text(seconds)
    }
}

/// The clock that the display shows: "00:00" while no round is in play, else the time left
/// of the round in whole seconds (rounded up), or the infinity sign for an endless round.
pub fn hud_clock(game: &Match, seconds: Option<u64>) -> (r: String)
    ensures
        r@ == hud_clock_text(*game, seconds),
{
    if game.current_round().is_none() {
        String::from_str("00:00")
    } else {
        format_clock(seconds)
    }
}

} // verus!
