use rand::rngs::SmallRng;
use rand::RngExt;

use vstd::prelude::*;

use crate::cube::Cube;
use crate::grid::WordGrid;
use crate::rules::GameRules;
use crate::text::{normalize, string_of, chars_of};

verus! {

/// The small, fast, seedable generator of `rand`, which rolls boards.
#[verifier::external_type_specification]
#[verifier::external_body]
pub struct ExSmallRng(SmallRng);

/// Calls `RngExt::random_range` on `0..bound`, which panics on an empty range; `requires`
/// rules that out. Trusted only to return a value below `bound`: which value comes out rests
/// on the generator's state and is left unsaid.
#[verifier::external_body]
fn random_below(rng: &mut SmallRng, bound: usize) -> (r: usize)
    requires
        bound > 0,
    ensures
        r < bound,
{
    rng.random_range(0..bound)
}

/// `s` with the entries at `i` and `j` exchanged.
pub open spec fn swap_at(s: Seq<usize>, i: int, j: int) -> Seq<usize> {
    s.update(i, s[j]).update(j, s[i])
}

/// `0, 1, ..., n - 1`.
pub open spec fn identity(n: nat) -> Seq<usize> {
    Seq::new(n, |i: int| i as usize)
}

/// The order that the Fisher-Yates shuffle of `0..n` gives when its `t`-th step exchanges
/// position `n - 1 - t` with position `draws[t]`.
pub open spec fn fisher_yates(n: nat, draws: Seq<usize>) -> Seq<usize>
    decreases draws.len(),
{
    if draws.len() == 0 {
        identity(n)
    } else {
        swap_at(fisher_yates(n, draws.drop_last()), n - draws.len(), draws.last() as int)
    }
}

/// The draws fit the shuffle of `0..n`: at most `n - 1` of them, the `t`-th at most `n - 1 - t`.
pub open spec fn draws_fit(n: nat, draws: Seq<usize>) -> bool {
    &&& draws.len() < n || draws.len() == 0
    &&& forall|t: int| 0 <= t < draws.len() ==> (#[trigger] draws[t]) as int <= n - 1 - t
}

/// `s` holds each of `0..n` exactly once.
pub open spec fn is_permutation(s: Seq<usize>, n: nat) -> bool {
    &&& s.len() == n
    &&& s.no_duplicates()
    &&& forall|i: int| 0 <= i < s.len() ==> (#[trigger] s[i]) < n
}

/// Shuffles `0..n` by Fisher-Yates with the given draws: the order that a roll places the
/// cubes in.
pub fn shuffle(n: usize, draws: &[usize]) -> (r: Vec<usize>)
    requires
        draws_fit(n as nat, draws@),
    ensures
        r@ == fisher_yates(n as nat, draws@),
        is_permutation(r@, n as nat),
{
    let mut order: Vec<usize> = Vec::new();
    let mut i: usize = 0;
    while i < n
        invariant
            i <= n,
            order@ == identity(i as nat),
        decreases n - i,
    {
        order.push(i);
        assert(order@ =~= identity(i as nat + 1));
        i += 1;
    }
    assert(is_permutation(order@, n as nat)) by {
        assert forall|a: int, b: int| 0 <= a < order@.len() && 0 <= b < order@.len() && a != b
            implies order@[a] != order@[b] by {}
    }
    let mut t: usize = 0;
    while t < draws.len()
        invariant
            draws_fit(n as nat, draws@),
            t <= draws.len(),
            order@ == fisher_yates(n as nat, draws@.take(t as int)),
            is_permutation(order@, n as nat),
        decreases draws.len() - t,
    {
        let index = n - 1 - t;
        let j = draws[t];
        let a = order[index];
        let b = order[j];
        let ghost before = order@;
        order[index] = b;
        order[j] = a;
        proof {
            let d = draws@.take(t as int + 1);
            assert(d.drop_last() == draws@.take(t as int));
            assert(d.last() == j);
            assert(order@ == swap_at(before, index as int, j as int));
            assert(is_permutation(order@, n as nat)) by {
                assert forall|x: int, y: int| 0 <= x < order@.len() && 0 <= y < order@.len() && x != y
                    implies order@[x] != order@[y] by {
                    let sx = if x == index { j as int } else if x == j { index as int } else { x };
                    let sy = if y == index { j as int } else if y == j { index as int } else { y };
                    assert(order@[x] == before[sx]);
                    assert(order@[y] == before[sy]);
                }
                assert forall|x: int| 0 <= x < order@.len() implies (#[trigger] order@[x]) < n by {
                    let sx = if x == index { j as int } else if x == j { index as int } else { x };
                    assert(order@[x] == before[sx]);
                }
            }
        }
        t += 1;
    }
    assert(draws@.take(draws.len() as int) == draws@);
    order
}

/// One cube of a rolled board: which cube of the set, which face came up, and its label.
#[derive(Debug, Clone, PartialEq, Eq)]
pub struct RolledCube {
    cube_index: usize,
    face_index: usize,
    label: String,
}

impl RolledCube {
    /// Which cube of the set this is.
    pub closed spec fn cube_at(&self) -> nat {
        self.cube_index as nat
    }

    /// Which of its faces came up.
    pub closed spec fn face_at(&self) -> nat {
        self.face_index as nat
    }

    /// The label on that face.
    pub closed spec fn label_view(&self) -> Seq<char> {
        self.label@
    }

    /// Which cube of the set this is.
    pub fn cube_index(&self) -> (r: usize)
        ensures
            r == self.cube_at(),
    {
        self.cube_index
    }

    /// Which of its faces came up.
    pub fn face_index(&self) -> (r: usize)
        ensures
            r == self.face_at(),
    {
        self.face_index
    }

    /// The label on that face.
    pub fn label(&self) -> (r: &str)
        ensures
            r@ == self.label_view(),
    {
        self.label.as_str()
    }

    fn copy(&self) -> (r: RolledCube)
        ensures
            r.cube_at() == self.cube_at(),
            r.face_at() == self.face_at(),
            r.label_view() == self.label_view(),
    {
        RolledCube { cube_index: self.cube_index, face_index: self.face_index, label: self.label.clone() }
    }
}

/// A rolled board: one rolled cube per cell, row by row, and the board that their labels make.
#[derive(Debug, PartialEq, Eq)]
pub struct BoardRoll {
    grid: WordGrid,
    cubes: Vec<RolledCube>,
}

/// `roll` places cube `order[i]` at cell `i`, face `picks[i]` up, for the cubes `cubes`.
pub open spec fn roll_matches(roll: Seq<RolledCube>, cubes: Seq<Cube>, order: Seq<usize>, picks: Seq<usize>) -> bool {
    &&& roll.len() == order.len()
    &&& forall|i: int|
        0 <= i < roll.len() ==> (#[trigger] roll[i]).cube_at() == order[i] && roll[i].face_at()
            == picks[i] && roll[i].label_view() == cubes[order[i] as int].face_seq()[picks[i] as int]
}

/// The choices fit the cubes: `order` holds each cube once and each pick names a face of its cube.
pub open spec fn choices_fit(cubes: Seq<Cube>, order: Seq<usize>, picks: Seq<usize>) -> bool {
    &&& is_permutation(order, cubes.len())
    &&& picks.len() == order.len()
    &&& forall|i: int| 0 <= i < picks.len() ==> (#[trigger] picks[i]) < cubes[order[i] as int].face_seq().len()
}

impl BoardRoll {
    /// The board.
    pub closed spec fn board_grid(&self) -> WordGrid {
        self.grid
    }

    /// The rolled cubes, one per cell.
    pub closed spec fn rolled(&self) -> Seq<RolledCube> {
        self.cubes@
    }

    /// The board that places, at cell `i`, cube `order[i]` of the rules' set with face
    /// `picks[i]` up.
    pub fn assemble(rules: &GameRules, order: &[usize], picks: &[usize]) -> (r: BoardRoll)
        requires
            choices_fit(rules.cubes().cube_seq(), order@, picks@),
        ensures
            roll_matches(r.rolled(), rules.cubes().cube_seq(), order@, picks@),
            r.board_grid().side() == rules.side(),
            r.board_grid().cell_seq() == r.rolled().map_values(|c: RolledCube| normalize(c.label_view())),
    {
        proof {
            use_type_invariant(rules);
            rules.lemma_rules();
        }
        let cube_set = rules.cube_set();
        let ghost set = cube_set.cube_seq();
        let mut cubes: Vec<RolledCube> = Vec::new();
        let mut cells: Vec<String> = Vec::new();
        let mut i: usize = 0;
        while i < order.len()
            invariant
                set == rules.cubes().cube_seq(),
                *cube_set == rules.cubes(),
                choices_fit(set, order@, picks@),
                i <= order.len(),
                cubes.len() == i,
                cells.len() == i,
                roll_matches(cubes@, set, order@.take(i as int), picks@),
                forall|k: int| 0 <= k < i ==> (#[trigger] cells@[k])@ == cubes@[k].label_view(),
                forall|k: int| 0 <= k < i ==> normalize((#[trigger] cells@[k])@).len() > 0,
            decreases order.len() - i,
        {
            let cube_index = order[i];
            let face_index = picks[i];
            let cube = &cube_set.cubes()[cube_index];
            proof {
                use_type_invariant(cube);
                cube.lemma_faces();
            }
            let faces = cube.faces();
            let label = string_of(chars_of(faces[face_index].as_str()).as_slice());
            proof {
                assert(faces@.map_values(|f: String| f@)[face_index as int] == faces@[face_index as int]@);
                let f = cube.face_seq()[face_index as int];
                assert(crate::text::trim(f) == f);
                assert(normalize(f).len() == f.len());
            }
            let ghost cell_label = label@;
            cells.push(string_of(chars_of(label.as_str()).as_slice()));
            cubes.push(RolledCube { cube_index, face_index, label });
            proof {
                assert(order@.take(i as int + 1).len() == i + 1);
                assert forall|k: int| 0 <= k < cubes.len() implies (#[trigger] cubes@[k]).cube_at() == order@.take(i as int + 1)[k]
                    && cubes@[k].face_at() == picks@[k] && cubes@[k].label_view() == set[order@.take(i as int + 1)[k] as int].face_seq()[picks@[k] as int] by {
                    if k < i {
                        assert(order@.take(i as int + 1)[k] == order@.take(i as int)[k]);
                    }
                }
            }
            i += 1;
        }
        assert(order@.take(order.len() as int) == order@);
        let ghost cell_views = cells@.map_values(|c: String| c@);
        let grid = match WordGrid::new(rules.grid_size(), cells) {
            Ok(g) => g,
            Err(_) => {
                proof {
                    assert(cell_views.len() == rules.side() * rules.side());
                    assert forall|k: int| 0 <= k < cell_views.len() implies normalize(#[trigger] cell_views[k]).len() > 0 by {
                    }
                }
                vstd::pervasive::unreached()
            },
        };
        proof {
            assert(grid.cell_seq() =~= cubes@.map_values(|c: RolledCube| normalize(c.label_view())));
        }
        BoardRoll { grid, cubes }
    }

    /// Rolls the rules' cubes: shuffles them into the cells by a Fisher-Yates shuffle of
    /// `n - 1` draws from `rng` (step `t` exchanges cell `n - 1 - t` with a cell drawn from
    /// `0..=n - 1 - t`), then draws the face that comes up on each cell in turn. The draws
    /// themselves rest on the generator's state and are left unsaid.
    pub fn roll(rules: &GameRules, rng: &mut SmallRng) -> (r: BoardRoll)
        ensures
            exists|order: Seq<usize>, picks: Seq<usize>|
                choices_fit(rules.cubes().cube_seq(), order, picks) && #[trigger] roll_matches(
                    r.rolled(),
                    rules.cubes().cube_seq(),
                    order,
                    picks,
                ),
            exists|draws: Seq<usize>, picks: Seq<usize>|
                draws.len() + 1 == rules.cubes().cube_seq().len() && draws_fit(rules.cubes().cube_seq().len(), draws)
                    && choices_fit(rules.cubes().cube_seq(), fisher_yates(rules.cubes().cube_seq().len(), draws), picks)
                    && #[trigger] roll_matches(
                    r.rolled(),
                    rules.cubes().cube_seq(),
                    fisher_yates(rules.cubes().cube_seq().len(), draws),
                    picks,
                ),
            r.board_grid().side() == rules.side(),
            r.board_grid().cell_seq() == r.rolled().map_values(|c: RolledCube| normalize(c.label_view())),
    {
        proof {
            use_type_invariant(rules);
            rules.lemma_rules();
        }
        let cube_set = rules.cube_set();
        let n = cube_set.cubes().len();
        proof {
            let side = rules.side();
            assert(side * side > 0) by (nonlinear_arith)
                requires
                    side > 0,
            ;
        }
        let mut draws: Vec<usize> = Vec::new();
        let mut index: usize = n;
        while index > 1
            invariant
                n > 0,
                1 <= index <= n,
                draws.len() == n - index,
                draws_fit(n as nat, draws@),
            decreases index,
        {
            index -= 1;
            let j = random_below(rng, index + 1);
            draws.push(j);
            proof {
                assert forall|t: int| 0 <= t < draws.len() implies (#[trigger] draws@[t]) as int <= n - 1 - t by {
                    if t < draws.len() - 1 {
                        assert(draws@[t] == draws@.drop_last()[t]);
                    }
                }
            }
        }
        let order = shuffle(n, draws.as_slice());
        let mut picks: Vec<usize> = Vec::new();
        let mut i: usize = 0;
        while i < n
            invariant
                n == cube_set.cube_seq().len(),
                *cube_set == rules.cubes(),
                is_permutation(order@, n as nat),
                i <= n,
                picks.len() == i,
                forall|k: int| 0 <= k < i ==> (#[trigger] picks@[k]) < cube_set.cube_seq()[order@[k] as int].face_seq().len(),
            decreases n - i,
        {
            let cube = &cube_set.cubes()[order[i]];
            proof {
                use_type_invariant(cube);
                cube.lemma_faces();
            }
            let count = cube.faces().len();
            let pick = random_below(rng, count);
            picks.push(pick);
            i += 1;
        }
        BoardRoll::assemble(rules, order.as_slice(), picks.as_slice())
    }

    /// The board.
    pub fn grid(&self) -> (r: &WordGrid)
        ensures
            *r == self.board_grid(),
    {
        &self.grid
    }

    /// The rolled cubes, one per cell.
    pub fn cubes(&self) -> (r: &[RolledCube])
        ensures
            r@ == self.rolled(),
    {
        self.cubes.as_slice()
    }
}

impl Clone for BoardRoll {
    fn clone(&self) -> (r: Self)
        ensures
            r.board_grid().side() == self.board_grid().side(),
            r.board_grid().cell_seq() == self.board_grid().cell_seq(),
            r.rolled().len() == self.rolled().len(),
            forall|i: int| 0 <= i < r.rolled().len() ==> (#[trigger] r.rolled()[i]).cube_at() == self.rolled()[i].cube_at()
                && r.rolled()[i].face_at() == self.rolled()[i].face_at()
                && r.rolled()[i].label_view() == self.rolled()[i].label_view(),
    {
        let mut cubes: Vec<RolledCube> = Vec::new();
        let mut i: usize = 0;
        while i < self.cubes.len()
            invariant
                i <= self.cubes.len(),
                cubes.len() == i,
                forall|k: int| 0 <= k < i ==> (#[trigger] cubes@[k]).cube_at() == self.cubes@[k].cube_at()
                    && cubes@[k].face_at() == self.cubes@[k].face_at()
                    && cubes@[k].label_view() == self.cubes@[k].label_view(),
            decreases self.cubes.len() - i,
        {
            cubes.push(self.cubes[i].copy());
            i += 1;
        }
        BoardRoll { grid: self.grid.duplicate(), cubes }
    }
}

} // verus!
