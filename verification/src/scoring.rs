use vstd::prelude::*;

use crate::text::{chars_of, decimal, push_decimal, push_str};
use crate::word_score::points_for_letters;

verus! {

/// Words of at least `minimum_length` letters earn `points`.
#[derive(Debug, Clone, Copy, PartialEq, Eq, Structural)]
pub struct ScoreBand {
    pub minimum_length: usize,
    pub points: usize,
}

/// Why a list of bands is not a scoring table.
#[derive(Debug, Clone, Copy, PartialEq, Eq, Structural)]
pub enum ScoringTableError {
    /// There are no bands.
    NoBands,
    /// The band at `index` has a minimum length of zero.
    ZeroMinimumLength { index: usize },
    /// The band at `index` does not start after the band before it.
    NotStrictlyIncreasing { index: usize },
}

/// What is wrong with band `i`, looking at it and the band before it.
pub open spec fn band_step_error(bands: Seq<ScoreBand>, i: int) -> Option<ScoringTableError> {
    if bands[i].minimum_length == 0 {
        Some(ScoringTableError::ZeroMinimumLength { index: i as usize })
    } else if i > 0 && bands[i - 1].minimum_length >= bands[i].minimum_length {
        Some(ScoringTableError::NotStrictlyIncreasing { index: i as usize })
    } else {
        None
    }
}

/// The first error among the first `k` bands.
pub open spec fn first_band_error(bands: Seq<ScoreBand>, k: nat) -> Option<ScoringTableError>
    decreases k,
{
    if k == 0 {
        None
    } else {
        match first_band_error(bands, (k - 1) as nat) {
            Some(e) => Some(e),
            None => band_step_error(bands, k - 1),
        }
    }
}

/// The error that checking the bands in order meets first, if any.
pub open spec fn bands_error(bands: Seq<ScoreBand>) -> Option<ScoringTableError> {
    if bands.len() == 0 {
        Some(ScoringTableError::NoBands)
    } else {
        first_band_error(bands, bands.len())
    }
}

/// Bands are non-empty, with positive, strictly increasing minimum lengths.
pub open spec fn bands_ok(bands: Seq<ScoreBand>) -> bool {
    &&& bands.len() > 0
    &&& forall|i: int| 0 <= i < bands.len() ==> (#[trigger] bands[i]).minimum_length > 0
    &&& forall|i: int| 0 < i < bands.len() ==> bands[i - 1].minimum_length < (#[trigger] bands[i]).minimum_length
}

/// The points for a word of `length` letters: those of the last band whose minimum it
/// reaches, or none.
pub open spec fn score_for(bands: Seq<ScoreBand>, length: nat) -> nat
    decreases bands.len(),
{
    if bands.len() == 0 {
        0
    } else if length >= bands.last().minimum_length {
        bands.last().points as nat
    } else {
        score_for(bands.drop_last(), length)
    }
}

/// The bands of the standard table.
pub open spec fn standard_bands() -> Seq<ScoreBand> {
    seq![
        ScoreBand { minimum_length: 3, points: 1 },
        ScoreBand { minimum_length: 5, points: 2 },
        ScoreBand { minimum_length: 6, points: 3 },
        ScoreBand { minimum_length: 7, points: 5 },
        ScoreBand { minimum_length: 8, points: 11 },
    ]
}

/// The message that describes an error.
pub open spec fn scoring_error_message(e: ScoringTableError) -> Seq<char> {
    match e {
        ScoringTableError::NoBands => "scoring table must contain at least one band"@,
        ScoringTableError::ZeroMinimumLength { index } => "scoring band "@ + decimal(index as nat)
            + " has a zero minimum length"@,
        ScoringTableError::NotStrictlyIncreasing { index } => "scoring band "@ + decimal(
            index as nat,
        ) + " is not ordered after the previous band"@,
    }
}

impl ScoringTableError {
    /// The message that describes this error.
    pub fn message(&self) -> (r: String)
        ensures
            r@ == scoring_error_message(*self),
    {
        match self {
            ScoringTableError::NoBands => String::from_str(
                "scoring table must contain at least one band",
            ),
            ScoringTableError::ZeroMinimumLength { index } => {
                let mut s = String::from_str("scoring band ");
                push_decimal(&mut s, *index);
                push_str(&mut s, " has a zero minimum length");
                s
            },
            ScoringTableError::NotStrictlyIncreasing { index } => {
                let mut s = String::from_str("scoring band ");
                push_decimal(&mut s, *index);
                push_str(&mut s, " is not ordered after the previous band");
                s
            },
        }
    }
}

/// Points by word length, as a list of bands with increasing minimum lengths.
#[derive(Debug, PartialEq, Eq)]
pub struct ScoringTable {
    bands: Vec<ScoreBand>,
}

proof fn lemma_first_band_error_none(bands: Seq<ScoreBand>, k: nat)
    requires
        k <= bands.len(),
    ensures
        first_band_error(bands, k) is None <==> forall|i: int|
            0 <= i < k ==> (#[trigger] band_step_error(bands, i)) is None,
    decreases k,
{
    if k > 0 {
        lemma_first_band_error_none(bands, (k - 1) as nat);
    }
}

proof fn lemma_first_band_error_stable(bands: Seq<ScoreBand>, k: nat, j: nat)
    requires
        k <= j,
        first_band_error(bands, k) is Some,
    ensures
        first_band_error(bands, j) == first_band_error(bands, k),
    decreases j - k,
{
    if j > k {
        lemma_first_band_error_stable(bands, k, (j - 1) as nat);
    }
}

proof fn lemma_first_band_error_some(bands: Seq<ScoreBand>, k: nat)
    requires
        k <= bands.len(),
        first_band_error(bands, k) is Some,
    ensures
        exists|j: int|
            0 <= j < k && #[trigger] band_step_error(bands, j) == first_band_error(bands, k) && forall|m: int|
                0 <= m < j ==> (#[trigger] band_step_error(bands, m)) is None,
    decreases k,
{
    if first_band_error(bands, (k - 1) as nat) is Some {
        lemma_first_band_error_some(bands, (k - 1) as nat);
    } else {
        lemma_first_band_error_none(bands, (k - 1) as nat);
        assert(band_step_error(bands, k - 1) == first_band_error(bands, k));
    }
}

/// What the checks of a list of bands conclude, said of the bands themselves: the list is
/// refused as empty exactly when it is empty; a band named for a zero minimum length has
/// one; a band named as out of order does not start after the band before it; every band
/// before the named one is positive and starts after its predecessor; and a list that is
/// not refused has positive minimum lengths that strictly increase.
#[verifier::rlimit(40)]
pub proof fn lemma_band_checks(bands: Seq<ScoreBand>)
    requires
        bands.len() <= usize::MAX,
    ensures
        (bands_error(bands) == Some(ScoringTableError::NoBands)) <==> bands.len() == 0,
        bands_error(bands) matches Some(ScoringTableError::ZeroMinimumLength { index }) ==> {
            &&& index < bands.len()
            &&& bands[index as int].minimum_length == 0
            &&& forall|k: int| 0 <= k < index ==> (#[trigger] bands[k]).minimum_length > 0 && (k > 0
                ==> bands[k - 1].minimum_length < bands[k].minimum_length)
        },
        bands_error(bands) matches Some(ScoringTableError::NotStrictlyIncreasing { index }) ==> {
            &&& 0 < index < bands.len()
            &&& bands[index - 1].minimum_length >= bands[index as int].minimum_length
            &&& bands[index as int].minimum_length > 0
            &&& forall|k: int| 0 <= k < index ==> (#[trigger] bands[k]).minimum_length > 0 && (k > 0
                ==> bands[k - 1].minimum_length < bands[k].minimum_length)
        },
        bands_error(bands) is None ==> bands.len() > 0 && (forall|i: int|
            0 <= i < bands.len() ==> (#[trigger] bands[i]).minimum_length > 0) && (forall|i: int|
            0 < i < bands.len() ==> bands[i - 1].minimum_length < (#[trigger] bands[i]).minimum_length),
{
    if bands.len() > 0 {
        if bands_error(bands) is Some {
            let j = lemma_band_checks_some(bands);
            assert((j as usize) as int == j);
            if bands[j].minimum_length == 0 {
                assert(bands_error(bands) == Some(ScoringTableError::ZeroMinimumLength { index: j as usize }));
            } else {
                assert(j > 0 && bands[j - 1].minimum_length >= bands[j].minimum_length);
                assert(bands_error(bands) == Some(ScoringTableError::NotStrictlyIncreasing { index: j as usize }));
            }
        } else {
            lemma_first_band_error_none(bands, bands.len());
            assert forall|i: int| 0 <= i < bands.len() implies (#[trigger] bands[i]).minimum_length > 0 by {
                assert(band_step_error(bands, i) is None);
            }
            assert forall|i: int| 0 < i < bands.len() implies bands[i - 1].minimum_length < (#[trigger] bands[i]).minimum_length by {
                assert(band_step_error(bands, i) is None);
            }
        }
    }
}

proof fn lemma_band_checks_some(bands: Seq<ScoreBand>) -> (j: int)
    requires
        bands.len() > 0,
        bands_error(bands) is Some,
    ensures
        0 <= j < bands.len(),
        band_step_error(bands, j) == bands_error(bands),
        forall|k: int|
            0 <= k < j ==> (#[trigger] bands[k]).minimum_length > 0 && (k > 0 ==> bands[k - 1].minimum_length
                < bands[k].minimum_length),
{
    lemma_first_band_error_some(bands, bands.len());
    let j = choose|j: int|
        0 <= j < bands.len() && #[trigger] band_step_error(bands, j) == first_band_error(bands, bands.len())
            && forall|m: int| 0 <= m < j ==> (#[trigger] band_step_error(bands, m)) is None;
    assert forall|k: int| 0 <= k < j implies (#[trigger] bands[k]).minimum_length > 0 && (k > 0
        ==> bands[k - 1].minimum_length < bands[k].minimum_length) by {
        assert(band_step_error(bands, k) is None);
    }
    j
}

/// Checking the bands finds no error exactly when they form a table.
pub proof fn lemma_bands_error_iff_ok(bands: Seq<ScoreBand>)
    ensures
        bands_error(bands) is None <==> bands_ok(bands),
{
    if bands.len() > 0 {
        lemma_first_band_error_none(bands, bands.len());
        if bands_ok(bands) {
            assert forall|i: int| 0 <= i < bands.len() implies (#[trigger] band_step_error(bands, i)) is None by {
                assert(bands[i].minimum_length > 0);
                if i > 0 {
                    assert(bands[i - 1].minimum_length < bands[i].minimum_length);
                }
            }
        }
        if bands_error(bands) is None {
            assert forall|i: int| 0 <= i < bands.len() implies (#[trigger] bands[i]).minimum_length > 0 by {
                assert(band_step_error(bands, i) is None);
            }
            assert forall|i: int| 0 < i < bands.len() implies bands[i - 1].minimum_length < (#[trigger] bands[i]).minimum_length by {
                assert(band_step_error(bands, i) is None);
            }
        }
    }
}

impl ScoringTable {
    /// The bands, in order.
    pub closed spec fn band_seq(&self) -> Seq<ScoreBand> {
        self.bands@
    }

    #[verifier::type_invariant]
    closed spec fn well_formed(&self) -> bool {
        bands_ok(self.bands@)
    }

    /// Builds a table from bands, refusing an empty list, a zero minimum length, or a band
    /// that does not start after the one before it; the first such band, in order, is named.
    pub fn new(bands: Vec<ScoreBand>) -> (r: Result<Self, ScoringTableError>)
        ensures
            match r {
                Ok(t) => bands_error(bands@) is None && t.band_seq() == bands@,
                Err(e) => bands_error(bands@) == Some(e),
            },
            r is Ok <==> bands_ok(bands@),
            r is Ok ==> forall|i: int|
                0 < i < bands@.len() ==> bands@[i - 1].minimum_length < (#[trigger] bands@[i]).minimum_length,
            r is Ok ==> forall|i: int| 0 <= i < bands@.len() ==> (#[trigger] bands@[i]).minimum_length > 0,
            (r == Err::<ScoringTable, ScoringTableError>(ScoringTableError::NoBands)) <==> bands@.len() == 0,
            r matches Err(ScoringTableError::NotStrictlyIncreasing { index }) ==> 0 < index < bands@.len()
                && bands@[index - 1].minimum_length >= bands@[index as int].minimum_length && forall|k: int|
                0 < k < index ==> bands@[k - 1].minimum_length < (#[trigger] bands@[k]).minimum_length,
            r matches Err(ScoringTableError::ZeroMinimumLength { index }) ==> index < bands@.len()
                && bands@[index as int].minimum_length == 0,
            (exists|i: int| 0 < i < bands@.len() && bands@[i - 1].minimum_length >= (#[trigger] bands@[i]).minimum_length)
                ==> r is Err,
    {
        let count = bands.len();
        proof {
            lemma_bands_error_iff_ok(bands@);
            lemma_band_checks(bands@);
        }
        if bands.len() == 0 {
            return Err(ScoringTableError::NoBands);
        }
        let mut index: usize = 0;
        while index < bands.len()
            invariant
                index <= bands.len(),
                first_band_error(bands@, index as nat) is None,
            decreases bands.len() - index,
        {
            if bands[index].minimum_length == 0 {
                proof {
                    lemma_first_band_error_stable(bands@, (index + 1) as nat, bands.len() as nat);
                    lemma_band_checks(bands@);
                }
                return Err(ScoringTableError::ZeroMinimumLength { index });
            }
            if index > 0 && bands[index - 1].minimum_length >= bands[index].minimum_length {
                proof {
                    lemma_first_band_error_stable(bands@, (index + 1) as nat, bands.len() as nat);
                    lemma_band_checks(bands@);
                }
                return Err(ScoringTableError::NotStrictlyIncreasing { index });
            }
            index += 1;
        }
        Ok(ScoringTable { bands })
    }

    /// The standard table: 1 point from 3 letters, 2 from 5, 3 from 6, 5 from 7, 11 from 8.
    pub fn standard() -> (t: Self)
        ensures
            t.band_seq() == standard_bands(),
    {
        let mut bands: Vec<ScoreBand> = Vec::new();
        bands.push(ScoreBand { minimum_length: 3, points: 1 });
        bands.push(ScoreBand { minimum_length: 5, points: 2 });
        bands.push(ScoreBand { minimum_length: 6, points: 3 });
        bands.push(ScoreBand { minimum_length: 7, points: 5 });
        bands.push(ScoreBand { minimum_length: 8, points: 11 });
        assert(bands@ =~= standard_bands());
        ScoringTable { bands }
    }

    /// The bands, in order.
    pub fn bands(&self) -> (r: &[ScoreBand])
        ensures
            r@ == self.band_seq(),
            r@.len() > 0,
            forall|i: int| 0 < i < r@.len() ==> r@[i - 1].minimum_length < (#[trigger] r@[i]).minimum_length,
            forall|i: int| 0 <= i < r@.len() ==> (#[trigger] r@[i]).minimum_length > 0,
    {
        proof {
            use_type_invariant(self);
        }
        self.bands.as_slice()
    }

    /// The points for `word`, by its number of characters.
    pub fn score_word(&self, word: &str) -> (r: usize)
        ensures
            r == score_for(self.band_seq(), word@.len()),
    {
        let letters = chars_of(word);
        self.score_length(letters.len())
    }

    /// The points for a word of `length` letters.
    pub fn score_length(&self, length: usize) -> (r: usize)
        ensures
            r == score_for(self.band_seq(), length as nat),
    {
        let mut k: usize = self.bands.len();
        assert(self.bands@.take(k as int) == self.bands@);
        while k > 0
            invariant
                k <= self.bands.len(),
                score_for(self.bands@, length as nat) == score_for(self.bands@.take(k as int), length as nat),
            decreases k,
        {
            let band = self.bands[k - 1];
            proof {
                let t = self.bands@.take(k as int);
                assert(t.last() == band);
                assert(t.drop_last() == self.bands@.take(k - 1));
            }
            if length >= band.minimum_length {
                return band.points;
            }
            k -= 1;
        }
        0
    }
}

impl Clone for ScoringTable {
    fn clone(&self) -> (r: Self)
        ensures
            r.band_seq() == self.band_seq(),
    {
        proof {
            use_type_invariant(self);
        }
        let bands = self.bands.clone();
        proof {
            assert forall|i: int| 0 <= i < bands.len() implies bands@[i] == self.bands@[i] by {
                assert(cloned::<ScoreBand>(self.bands[i], bands[i]));
            }
            assert(bands@ =~= self.bands@);
        }
        ScoringTable { bands }
    }
}

/// The standard table and the solver's fixed table give the same points for every number
/// of letters.
pub proof fn lemma_standard_matches_fixed_table(length: nat)
    ensures
        score_for(standard_bands(), length) == points_for_letters(length),
{
    let b = standard_bands();
    assert(b.drop_last().drop_last().drop_last().drop_last().drop_last().len() == 0);
    reveal_with_fuel(score_for, 6);
}

} // verus!
