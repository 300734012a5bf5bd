use std::collections::HashMap;

use vstd::prelude::*;

use crate::text::{ascii_lower, chars_of, lower_str, normalize, normalize_chars};

verus! {

broadcast use vstd::std_specs::hash::group_hash_axioms;

/// The bucket key of a word: a polynomial hash of its characters, reduced modulo a prime
/// so that no step overflows.
pub open spec fn word_hash(s: Seq<char>) -> u64
    decreases s.len(),
{
    if s.len() == 0 {
        0
    } else {
        ((word_hash(s.drop_last()) as int * 31 + (s.last() as u32) as int) % 1_000_000_007) as u64
    }
}

/// A bucket holds the word `w`.
pub open spec fn in_bucket(b: Seq<Vec<char>>, w: Seq<char>) -> bool {
    exists|i: int| 0 <= i < b.len() && (#[trigger] b[i])@ == w
}

/// A table of buckets holds the word `w`: in the bucket that its hash names.
pub open spec fn table_has(m: Map<u64, Vec<Vec<char>>>, w: Seq<char>) -> bool {
    m.contains_key(word_hash(w)) && in_bucket(m[word_hash(w)]@, w)
}

/// Every word of a table stands in the bucket of its own hash.
pub open spec fn table_ok(m: Map<u64, Vec<Vec<char>>>) -> bool {
    forall|k: u64, i: int|
        m.contains_key(k) && 0 <= i < m[k]@.len() ==> word_hash((#[trigger] m[k]@[i])@) == k
}

/// The words that a table holds.
pub open spec fn table_set(m: Map<u64, Vec<Vec<char>>>) -> Set<Seq<char>> {
    Set::new(|w: Seq<char>| table_has(m, w))
}

/// `p` is the empty string or starts some word of `words`.
pub open spec fn starts_word(words: Set<Seq<char>>, p: Seq<char>) -> bool {
    p.len() == 0 || exists|w: Seq<char>| words.contains(w) && #[trigger] p.is_prefix_of(w)
}

/// The strings that can still grow into a word of `words`: the empty string and every
/// prefix of every word.
pub open spec fn prefix_closure(words: Set<Seq<char>>) -> Set<Seq<char>> {
    Set::new(|p: Seq<char>| starts_word(words, p))
}

/// The words that a list of raw lines yields: each trimmed and put in ASCII lower case,
/// the empty ones left out.
pub open spec fn word_set(raw: Seq<Seq<char>>) -> Set<Seq<char>> {
    Set::new(
        |w: Seq<char>|
            w.len() > 0 && exists|i: int| 0 <= i < raw.len() && normalize(#[trigger] raw[i]) == w,
    )
}

/// The pieces of `s` between line feeds, as `str::split('\n')` gives them.
pub open spec fn segments(s: Seq<char>) -> Seq<Seq<char>>
    decreases s.len(),
{
    if s.len() == 0 {
        seq![Seq::<char>::empty()]
    } else {
        let prev = segments(s.drop_last());
        if s.last() == '\n' {
            prev.push(Seq::<char>::empty())
        } else {
            prev.update(prev.len() - 1, prev.last().push(s.last()))
        }
    }
}

/// `s[i..j]` is a whole line of `s`: it starts at the beginning or after a line feed, ends
/// at the end or at a line feed, and holds no line feed.
pub open spec fn is_line(s: Seq<char>, i: int, j: int) -> bool {
    &&& 0 <= i <= j <= s.len()
    &&& (i == 0 || s[i - 1] == '\n')
    &&& (j == s.len() || s[j] == '\n')
    &&& forall|k: int| i <= k < j ==> s[k] != '\n'
}

/// Piece `k` of `s` cut at line feeds is a line that ends at a line feed.
pub open spec fn piece_is_line(s: Seq<char>, k: int) -> bool {
    exists|i: int, j: int| #[trigger] is_line(s, i, j) && j < s.len() && segments(s)[k] == s.subrange(i, j)
}

proof fn lemma_line_lift(s: Seq<char>, i: int, j: int)
    requires
        s.len() > 0,
        is_line(s.drop_last(), i, j),
        j < s.len() - 1 || s.last() == '\n',
    ensures
        is_line(s, i, j),
        s.subrange(i, j) == s.drop_last().subrange(i, j),
{
    let t = s.drop_last();
    assert forall|k: int| i <= k < j implies s[k] != '\n' by {
        assert(s[k] == t[k]);
    }
    if i > 0 {
        assert(s[i - 1] == t[i - 1]);
    }
    if j < s.len() - 1 {
        assert(s[j] == t[j]);
    }
    assert(s.subrange(i, j) =~= t.subrange(i, j));
}

proof fn lemma_line_restrict(s: Seq<char>, i: int, j: int)
    requires
        is_line(s, i, j),
        j < s.len(),
    ensures
        is_line(s.drop_last(), i, j),
        s.subrange(i, j) == s.drop_last().subrange(i, j),
{
    let t = s.drop_last();
    assert forall|k: int| i <= k < j implies t[k] != '\n' by {
        assert(s[k] == t[k]);
    }
    if i > 0 {
        assert(s[i - 1] == t[i - 1]);
    }
    if j < t.len() {
        assert(s[j] == t[j]);
    }
    assert(s.subrange(i, j) =~= t.subrange(i, j));
}

/// The pieces that `segments` cuts are exactly the lines: every piece but the last is a line
/// that ends at a line feed, the last is the line that ends the text, and every line is one
/// of the pieces.
pub proof fn lemma_segments_are_lines(s: Seq<char>)
    ensures
        segments(s).len() > 0,
        forall|k: int| 0 <= k < segments(s).len() - 1 ==> #[trigger] piece_is_line(s, k),
        exists|i: int| #[trigger] is_line(s, i, s.len() as int) && segments(s).last() == s.subrange(i, s.len() as int),
        forall|i: int, j: int|
            #[trigger] is_line(s, i, j) && j < s.len() ==> exists|k: int|
                0 <= k < segments(s).len() - 1 && #[trigger] segments(s)[k] == s.subrange(i, j),
        forall|i: int| #[trigger] is_line(s, i, s.len() as int) ==> segments(s).last() == s.subrange(i, s.len() as int),
    decreases s.len(),
{
    let segs = segments(s);
    if s.len() == 0 {
        assert(segs.len() == 1);
        assert(is_line(s, 0, 0));
        assert(s.subrange(0, 0) =~= Seq::<char>::empty());
        assert forall|i: int| #[trigger] is_line(s, i, s.len() as int) implies segs.last() == s.subrange(i, s.len() as int) by {
            assert(s.subrange(i, s.len() as int) =~= Seq::<char>::empty());
        }
    } else {
        let t = s.drop_last();
        let n = s.len() as int;
        let c = s.last();
        let prev = segments(t);
        lemma_segments_are_lines(t);
        let li = choose|i: int| #[trigger] is_line(t, i, t.len() as int) && prev.last() == t.subrange(i, t.len() as int);
        if c == '\n' {
            assert(segs == prev.push(Seq::<char>::empty()));
            // pieces before the last
            assert forall|k: int| 0 <= k < segments(s).len() - 1 implies #[trigger] piece_is_line(s, k) by {
                assert(segs[k] == prev[k]);
                if k < prev.len() - 1 {
                    assert(piece_is_line(t, k));
                    let (i, j) = choose|i: int, j: int| #[trigger] is_line(t, i, j) && j < t.len() && prev[k] == t.subrange(i, j);
                    lemma_line_lift(s, i, j);
                } else {
                    lemma_line_lift(s, li, t.len() as int);
                }
            }
            assert(is_line(s, n, n));
            assert(segs.last() =~= s.subrange(n, n));
            assert forall|i: int, j: int| #[trigger] is_line(s, i, j) && j < s.len() implies exists|k: int|
                0 <= k < segs.len() - 1 && #[trigger] segs[k] == s.subrange(i, j) by {
                lemma_line_restrict(s, i, j);
                if j < t.len() {
                    let k = choose|k: int| 0 <= k < prev.len() - 1 && prev[k] == t.subrange(i, j);
                    assert(segs[k] == prev[k]);
                } else {
                    assert(segs[prev.len() - 1] == prev.last());
                }
            }
            assert forall|i: int| #[trigger] is_line(s, i, s.len() as int) implies segs.last() == s.subrange(i, s.len() as int) by {
                if i < n {
                    assert(s[n - 1] != '\n');
                }
                assert(s.subrange(i, n) =~= Seq::<char>::empty());
            }
        } else {
            assert(segs == prev.update(prev.len() - 1, prev.last().push(c)));
            assert forall|k: int| 0 <= k < segments(s).len() - 1 implies #[trigger] piece_is_line(s, k) by {
                assert(segs[k] == prev[k]);
                assert(piece_is_line(t, k));
                let (i, j) = choose|i: int, j: int| #[trigger] is_line(t, i, j) && j < t.len() && prev[k] == t.subrange(i, j);
                lemma_line_lift(s, i, j);
            }
            assert(is_line(s, li, n)) by {
                assert forall|k: int| li <= k < n implies s[k] != '\n' by {
                    if k < n - 1 {
                        assert(s[k] == t[k]);
                    }
                }
                if li > 0 {
                    assert(s[li - 1] == t[li - 1]);
                }
            }
            assert(segs.last() =~= s.subrange(li, n));
            assert forall|i: int, j: int| #[trigger] is_line(s, i, j) && j < s.len() implies exists|k: int|
                0 <= k < segs.len() - 1 && #[trigger] segs[k] == s.subrange(i, j) by {
                lemma_line_restrict(s, i, j);
                assert(j < t.len());
                let k = choose|k: int| 0 <= k < prev.len() - 1 && prev[k] == t.subrange(i, j);
                assert(segs[k] == prev[k]);
            }
            assert forall|i: int| #[trigger] is_line(s, i, s.len() as int) implies segs.last() == s.subrange(i, s.len() as int) by {
                assert(i < n) by {
                    if i == n {
                        assert(s[i - 1] == '\n');
                    }
                }
                assert(is_line(t, i, t.len() as int)) by {
                    assert forall|k: int| i <= k < t.len() implies t[k] != '\n' by {
                        assert(s[k] == t[k]);
                    }
                    if i > 0 {
                        assert(s[i - 1] == t[i - 1]);
                    }
                }
                assert(prev.last() == t.subrange(i, t.len() as int));
                assert(s.subrange(i, n) =~= t.subrange(i, t.len() as int).push(c));
            }
        }
    }
}

/// The words that a text yields are those of its lines: each line whose normal form (trimmed,
/// ASCII lower case) is not empty gives that word, whatever lines come before or after it,
/// and every word comes from some line.
pub proof fn lemma_text_words_are_lines(text: Seq<char>)
    ensures
        forall|i: int, j: int|
            #[trigger] is_line(text, i, j) && normalize(text.subrange(i, j)).len() > 0 ==> word_set(
                segments(text),
            ).contains(normalize(text.subrange(i, j))),
        forall|w: Seq<char>|
            #[trigger] word_set(segments(text)).contains(w) ==> w.len() > 0 && exists|i: int, j: int|
                #[trigger] is_line(text, i, j) && normalize(text.subrange(i, j)) == w,
{
    let segs = segments(text);
    lemma_segments_are_lines(text);
    assert forall|i: int, j: int|
        #[trigger] is_line(text, i, j) && normalize(text.subrange(i, j)).len() > 0 implies word_set(
            segs,
        ).contains(normalize(text.subrange(i, j))) by {
        if j < text.len() {
            let k = choose|k: int| 0 <= k < segs.len() - 1 && #[trigger] segs[k] == text.subrange(i, j);
            assert(normalize(segs[k]) == normalize(text.subrange(i, j)));
        } else {
            assert(segs[segs.len() - 1] == text.subrange(i, j));
        }
    }
    assert forall|w: Seq<char>| #[trigger] word_set(segs).contains(w) implies w.len() > 0 && exists|i: int, j: int|
        #[trigger] is_line(text, i, j) && normalize(text.subrange(i, j)) == w by {
        let k = choose|k: int| 0 <= k < segs.len() && normalize(#[trigger] segs[k]) == w;
        if k < segs.len() - 1 {
            assert(piece_is_line(text, k));
            let (i, j) = choose|i: int, j: int| #[trigger] is_line(text, i, j) && j < text.len() && segs[k] == text.subrange(i, j);
            assert(is_line(text, i, j));
        } else {
            let i = choose|i: int| #[trigger] is_line(text, i, text.len() as int) && segs.last() == text.subrange(i, text.len() as int);
            assert(is_line(text, i, text.len() as int));
        }
    }
}

fn hash_chars(w: &[char]) -> (h: u64)
    ensures
        h == word_hash(w@),
        h < 1_000_000_007,
{
    let mut h: u64 = 0;
    let mut i: usize = 0;
    while i < w.len()
        invariant
            i <= w.len(),
            h == word_hash(w@.take(i as int)),
            h < 1_000_000_007,
        decreases w.len() - i,
    {
        let c = w[i] as u32;
        proof {
            let t = w@.take(i as int + 1);
            assert(t.drop_last() == w@.take(i as int));
            assert(t.last() == w@[i as int]);
        }
        h = (h * 31 + c as u64) % 1_000_000_007;
        i += 1;
    }
    assert(w@.take(w.len() as int) == w@);
    h
}

fn table_contains(m: &HashMap<u64, Vec<Vec<char>>>, w: &[char]) -> (r: bool)
    ensures
        r == table_has(m@, w@),
{
    let h = hash_chars(w);
    match m.get(&h) {
        None => false,
        Some(bucket) => {
            let mut i: usize = 0;
            while i < bucket.len()
                invariant
                    m@.contains_key(h),
                    m@[h] == *bucket,
                    h == word_hash(w@),
                    i <= bucket.len(),
                    forall|k: int| 0 <= k < i ==> (#[trigger] bucket@[k])@ != w@,
                decreases bucket.len() - i,
            {
                if crate::text::chars_equal(bucket[i].as_slice(), w) {
                    assert(bucket@[i as int]@ == w@);
                    return true;
                }
                i += 1;
            }
            false
        },
    }
}

fn table_insert(m: &mut HashMap<u64, Vec<Vec<char>>>, w: Vec<char>)
    requires
        table_ok(old(m)@),
    ensures
        table_ok(final(m)@),
        table_set(final(m)@) == table_set(old(m)@).insert(w@),
{
    let ghost before = m@;
    let h = hash_chars(w.as_slice());
    let mut bucket = match m.remove(&h) {
        Some(b) => b,
        None => Vec::new(),
    };
    let ghost old_bucket = bucket@;
    assert(before.contains_key(h) ==> old_bucket == before[h]@);
    assert(!before.contains_key(h) ==> old_bucket.len() == 0);
    let mut present = false;
    let mut i: usize = 0;
    while i < bucket.len()
        invariant
            i <= bucket.len(),
            old_bucket == bucket@,
            present <==> exists|k: int| 0 <= k < i && (#[trigger] bucket@[k])@ == w@,
        decreases bucket.len() - i,
    {
        if crate::text::chars_equal(bucket[i].as_slice(), w.as_slice()) {
            present = true;
        }
        i += 1;
    }
    let ghost wv = w@;
    if !present {
        bucket.push(w);
    }
    let ghost new_bucket = bucket@;
    m.insert(h, bucket);
    proof {
        assert(m@ == before.insert(h, m@[h]));
        assert forall|x: Seq<char>| in_bucket(new_bucket, x) <==> (in_bucket(old_bucket, x) || x == wv) by {
            if in_bucket(new_bucket, x) {
                let k = choose|k: int| 0 <= k < new_bucket.len() && (#[trigger] new_bucket[k])@ == x;
                if k < old_bucket.len() {
                    assert(new_bucket[k] == old_bucket[k]);
                }
            }
            if in_bucket(old_bucket, x) {
                let k = choose|k: int| 0 <= k < old_bucket.len() && (#[trigger] old_bucket[k])@ == x;
                assert(new_bucket[k] == old_bucket[k]);
            }
            if x == wv {
                if !present {
                    assert(new_bucket[new_bucket.len() - 1]@ == wv);
                } else {
                    let k = choose|k: int| 0 <= k < old_bucket.len() && (#[trigger] old_bucket[k])@ == wv;
                    assert(new_bucket[k] == old_bucket[k]);
                }
            }
        }
        assert forall|k: u64, j: int| m@.contains_key(k) && 0 <= j < m@[k]@.len()
            implies word_hash((#[trigger] m@[k]@[j])@) == k by {
            if k == h {
                if j < old_bucket.len() {
                    assert(new_bucket[j] == old_bucket[j]);
                    assert(before.contains_key(h));
                    assert(before[h]@[j] == old_bucket[j]);
                }
            } else {
                assert(m@[k] == before[k]);
            }
        }
        assert forall|x: Seq<char>| table_has(m@, x) <==> (table_has(before, x) || x == wv) by {
            if word_hash(x) != h {
                if x == wv {
                } else {
                    assert(m@[word_hash(x)] == before[word_hash(x)]);
                }
            } else {
                if before.contains_key(h) {
                } else {
                    assert(!in_bucket(old_bucket, x));
                }
            }
        }
        assert(table_set(m@) =~= table_set(before).insert(wv));
    }
}

fn take_chars(v: &[char], n: usize) -> (r: Vec<char>)
    requires
        n <= v.len(),
    ensures
        r@ == v@.take(n as int),
{
    let mut r: Vec<char> = Vec::new();
    let mut i: usize = 0;
    while i < n
        invariant
            n <= v.len(),
            i <= n,
            r@ == v@.take(i as int),
        decreases n - i,
    {
        r.push(v[i]);
        assert(v@.take(i + 1) == v@.take(i as int).push(v@[i as int]));
        i += 1;
    }
    r
}

/// The prefixes of one more word are those of the others and those of that word.
proof fn lemma_closure_insert(words: Set<Seq<char>>, w: Seq<char>)
    ensures
        prefix_closure(words.insert(w)) == prefix_closure(words).union(
            Set::new(|p: Seq<char>| p.is_prefix_of(w)),
        ),
{
    assert forall|p: Seq<char>| #[trigger] prefix_closure(words.insert(w)).contains(p)
        == prefix_closure(words).union(Set::new(|q: Seq<char>| q.is_prefix_of(w))).contains(p) by {
        if starts_word(words.insert(w), p) && p.len() > 0 {
            let x = choose|x: Seq<char>| words.insert(w).contains(x) && #[trigger] p.is_prefix_of(x);
            if x != w {
                assert(words.contains(x));
            }
        }
    }
    assert(prefix_closure(words.insert(w)) =~= prefix_closure(words).union(
        Set::new(|p: Seq<char>| p.is_prefix_of(w)),
    ));
}

/// The tables under construction: words, and the prefixes of those words.
struct Tables {
    words: HashMap<u64, Vec<Vec<char>>>,
    prefixes: HashMap<u64, Vec<Vec<char>>>,
}

impl Tables {
    spec fn ok(&self) -> bool {
        &&& table_ok(self.words@)
        &&& table_ok(self.prefixes@)
        &&& table_set(self.prefixes@) == prefix_closure(table_set(self.words@))
    }

    fn empty() -> (t: Tables)
        ensures
            t.ok(),
            table_set(t.words@) == Set::<Seq<char>>::empty(),
    {
        let mut prefixes: HashMap<u64, Vec<Vec<char>>> = HashMap::new();
        let words: HashMap<u64, Vec<Vec<char>>> = HashMap::new();
        assert(table_set(prefixes@) =~= Set::<Seq<char>>::empty());
        let empty: Vec<char> = Vec::new();
        assert(empty@ == Seq::<char>::empty());
        table_insert(&mut prefixes, empty);
        assert(table_set(words@) =~= Set::<Seq<char>>::empty());
        assert forall|p: Seq<char>| #[trigger] prefix_closure(Set::<Seq<char>>::empty()).contains(p)
            == Set::<Seq<char>>::empty().insert(Seq::<char>::empty()).contains(p) by {
            if p.len() == 0 {
                assert(p =~= Seq::<char>::empty());
            }
        }
        assert(prefix_closure(Set::<Seq<char>>::empty()) =~= Set::<Seq<char>>::empty().insert(
            Seq::<char>::empty(),
        ));
        Tables { words, prefixes }
    }

    /// Adds the normal form of `raw`, unless it is empty, with all its prefixes.
    fn add(&mut self, raw: &[char])
        requires
            old(self).ok(),
        ensures
            final(self).ok(),
            table_set(final(self).words@) == (if normalize(raw@).len() > 0 {
                table_set(old(self).words@).insert(normalize(raw@))
            } else {
                table_set(old(self).words@)
            }),
    {
        let w = normalize_chars(raw);
        if w.len() == 0 {
            return;
        }
        let ghost words_before = table_set(self.words@);
        let mut end: usize = 0;
        while end < w.len()
            invariant
                end <= w.len(),
                table_ok(self.words@),
                table_ok(self.prefixes@),
                table_set(self.words@) == words_before,
                table_set(self.prefixes@) == prefix_closure(words_before).union(
                    Set::new(|p: Seq<char>| p.len() <= end && p.is_prefix_of(w@)),
                ),
            decreases w.len() - end,
        {
            let p = take_chars(w.as_slice(), end + 1);
            let ghost pv = p@;
            table_insert(&mut self.prefixes, p);
            proof {
                assert(pv.is_prefix_of(w@));
                assert(table_set(self.prefixes@) =~= prefix_closure(words_before).union(
                    Set::new(|q: Seq<char>| q.len() <= end + 1 && q.is_prefix_of(w@)),
                )) by {
                    assert forall|q: Seq<char>| q.len() <= end + 1 && q.is_prefix_of(w@) && q.len() > end
                        implies q == pv by {
                        assert(q =~= w@.subrange(0, end + 1));
                    }
                    assert forall|q: Seq<char>| q.len() <= end && q.is_prefix_of(w@) && q.len() == 0
                        implies prefix_closure(words_before).contains(q) by {
                    }
                }
            }
            end += 1;
        }
        let ghost wv = w@;
        table_insert(&mut self.words, w);
        proof {
            lemma_closure_insert(words_before, wv);
            assert(prefix_closure(words_before).union(
                Set::new(|p: Seq<char>| p.len() <= wv.len() && p.is_prefix_of(wv)),
            ) =~= prefix_closure(words_before).union(Set::new(|p: Seq<char>| p.is_prefix_of(wv))));
        }
    }
}

/// Every prefix of a word of a list starts a word of that list, so a search that follows a
/// word letter by letter is never cut short.
pub proof fn lemma_prefixes_start_words(words: Set<Seq<char>>, w: Seq<char>, k: int)
    requires
        words.contains(w),
        0 <= k <= w.len(),
    ensures
        starts_word(words, w.take(k)),
{
    assert(w.take(k).is_prefix_of(w));
}

/// The error type of `std::io`, which reading a word list reports.
#[verifier::external_type_specification]
#[verifier::external_body]
pub struct ExIoError(std::io::Error);

/// Whether the kind that `std::io::Error::kind` reports for `e` is `ErrorKind::InvalidData`.
pub uninterp spec fn is_invalid_data(e: std::io::Error) -> bool;

/// Calls `std::str::from_utf8`, and turns its error into an `std::io::Error` made by
/// `std::io::Error::new` with kind `InvalidData`. Trusted to succeed exactly on valid UTF-8
/// (vstd's `valid_utf8`), then to give the characters that the bytes encode, and otherwise to
/// give an error whose kind is `InvalidData` (as `Error::new` documents, `kind` reports the
/// kind it was made with); the error's message is left unsaid.
#[verifier::external_body]
fn utf8_to_str(bytes: &[u8]) -> (r: Result<&str, std::io::Error>)
    ensures
        r is Ok <==> vstd::utf8::valid_utf8(bytes@),
        r matches Ok(s) ==> s@ == vstd::utf8::decode_utf8(bytes@),
        r matches Err(e) ==> is_invalid_data(e),
{
    match std::str::from_utf8(bytes) {
        Ok(text) => Ok(text),
        Err(error) => Err(std::io::Error::new(std::io::ErrorKind::InvalidData, error)),
    }
}

/// A word list: the words it holds, and every prefix of them, for quick lookups while
/// searching a board.
#[derive(Debug)]
pub struct Dictionary {
    words: HashMap<u64, Vec<Vec<char>>>,
    prefixes: HashMap<u64, Vec<Vec<char>>>,
}

impl Dictionary {
    /// The words of the list, trimmed and in ASCII lower case.
    pub closed spec fn words(&self) -> Set<Seq<char>> {
        table_set(self.words@)
    }

    #[verifier::type_invariant]
    closed spec fn tables_ok(&self) -> bool {
        &&& table_ok(self.words@)
        &&& table_ok(self.prefixes@)
        &&& table_set(self.prefixes@) == prefix_closure(table_set(self.words@))
    }

    fn from_tables(t: Tables) -> (d: Dictionary)
        requires
            t.ok(),
        ensures
            d.words() == table_set(t.words@),
    {
        Dictionary { words: t.words, prefixes: t.prefixes }
    }

    /// Builds a dictionary from a list of words. Each is trimmed and put in ASCII lower case;
    /// empty ones are left out.
    pub fn from_words(words: &[&str]) -> (d: Dictionary)
        ensures
            d.words() == word_set(words@.map_values(|s: &str| s@)),
    {
        let ghost raw = words@.map_values(|s: &str| s@);
        let mut t = Tables::empty();
        let mut i: usize = 0;
        while i < words.len()
            invariant
                raw == words@.map_values(|s: &str| s@),
                i <= words.len(),
                t.ok(),
                table_set(t.words@) == word_set(raw.take(i as int)),
            decreases words.len() - i,
        {
            let v = chars_of(words[i]);
            t.add(v.as_slice());
            proof {
                assert(raw[i as int] == v@);
                let before = raw.take(i as int);
                let after = raw.take(i as int + 1);
                assert(after == before.push(v@));
                lemma_word_set_push(before, v@);
            }
            i += 1;
        }
        assert(raw.take(words.len() as int) == raw);
        Self::from_tables(t)
    }

    /// Builds a dictionary from text with one word per line. Each line is trimmed and put in
    /// ASCII lower case; empty lines are left out.
    pub fn from_text(text: &str) -> (d: Dictionary)
        ensures
            d.words() == word_set(segments(text@)),
            forall|i: int, j: int|
                #[trigger] is_line(text@, i, j) && normalize(text@.subrange(i, j)).len() > 0 ==> d.words().contains(
                    normalize(text@.subrange(i, j)),
                ),
            forall|w: Seq<char>|
                #[trigger] d.words().contains(w) ==> w.len() > 0 && exists|i: int, j: int|
                    #[trigger] is_line(text@, i, j) && normalize(text@.subrange(i, j)) == w,
    {
        proof {
            lemma_text_words_are_lines(text@);
        }
        let v = chars_of(text);
        let mut t = Tables::empty();
        let mut line: Vec<char> = Vec::new();
        let mut i: usize = 0;
        while i < v.len()
            invariant
                i <= v.len(),
                t.ok(),
                segments(v@.take(i as int)).len() > 0,
                line@ == segments(v@.take(i as int)).last(),
                table_set(t.words@) == word_set(segments(v@.take(i as int)).drop_last()),
            decreases v.len() - i,
        {
            let ghost before = segments(v@.take(i as int));
            let c = v[i];
            assert(v@.take(i + 1).drop_last() == v@.take(i as int));
            assert(v@.take(i + 1).last() == c);
            if c == '\n' {
                t.add(line.as_slice());
                line = Vec::new();
                proof {
                    let after = segments(v@.take(i + 1));
                    assert(after == before.push(Seq::<char>::empty()));
                    assert(after.drop_last() == before);
                    assert(before == before.drop_last().push(before.last()));
                    lemma_word_set_push(before.drop_last(), before.last());
                }
            } else {
                line.push(c);
                proof {
                    let after = segments(v@.take(i + 1));
                    assert(after.drop_last() == before.drop_last());
                }
            }
            i += 1;
        }
        assert(v@.take(v.len() as int) == v@);
        let ghost segs = segments(v@);
        t.add(line.as_slice());
        proof {
            assert(segs == segs.drop_last().push(segs.last()));
            lemma_word_set_push(segs.drop_last(), segs.last());
        }
        Self::from_tables(t)
    }

    /// Builds a dictionary from UTF-8 text with one word per line, or fails with an error of
    /// kind `InvalidData` when the bytes are not UTF-8.
    pub fn from_bytes(bytes: &[u8]) -> (r: Result<Dictionary, std::io::Error>)
        ensures
            r is Ok <==> vstd::utf8::valid_utf8(bytes@),
            r matches Ok(d) ==> d.words() == word_set(segments(vstd::utf8::decode_utf8(bytes@))),
            r matches Err(e) ==> is_invalid_data(e),
            r matches Ok(d) ==> forall|i: int, j: int|
                #[trigger] is_line(vstd::utf8::decode_utf8(bytes@), i, j) && normalize(
                    vstd::utf8::decode_utf8(bytes@).subrange(i, j),
                ).len() > 0 ==> d.words().contains(normalize(vstd::utf8::decode_utf8(bytes@).subrange(i, j))),
    {
        proof {
            lemma_text_words_are_lines(vstd::utf8::decode_utf8(bytes@));
        }
        match utf8_to_str(bytes) {
            Ok(text) => Ok(Self::from_text(text)),
            Err(error) => Err(error),
        }
    }

    /// Whether `word`, in ASCII lower case, is in the list.
    pub fn is_word_valid(&self, word: &str) -> (r: bool)
        ensures
            r == self.words().contains(ascii_lower(word@)),
    {
        let w = lower_str(word);
        self.has_word_chars(w.as_slice())
    }

    /// Whether `prefix`, in ASCII lower case, is empty or starts a word of the list.
    pub fn can_be_word(&self, prefix: &str) -> (r: bool)
        ensures
            r == starts_word(self.words(), ascii_lower(prefix@)),
    {
        let p = lower_str(prefix);
        self.starts_word_chars(p.as_slice())
    }

    /// Whether `p` is empty or starts a word of the list.
    pub(crate) fn starts_word_chars(&self, p: &[char]) -> (r: bool)
        ensures
            r == starts_word(self.words(), p@),
    {
        proof {
            use_type_invariant(self);
        }
        let r = table_contains(&self.prefixes, p);
        assert(table_set(self.prefixes@).contains(p@) == table_has(self.prefixes@, p@));
        assert(prefix_closure(self.words()).contains(p@) == starts_word(self.words(), p@));
        r
    }

    /// Whether `w` is a word of the list.
    pub(crate) fn has_word_chars(&self, w: &[char]) -> (r: bool)
        ensures
            r == self.words().contains(w@),
    {
        let r = table_contains(&self.words, w);
        assert(table_set(self.words@).contains(w@) == table_has(self.words@, w@));
        r
    }
}

impl Clone for Dictionary {
    fn clone(&self) -> (r: Self)
        ensures
            r.words() == self.words(),
    {
        proof {
            use_type_invariant(self);
        }
        Dictionary { words: self.words.clone(), prefixes: self.prefixes.clone() }
    }
}

/// Adding a line to a list of lines adds its normal form, if not empty, to the words.
proof fn lemma_word_set_push(raw: Seq<Seq<char>>, line: Seq<char>)
    ensures
        word_set(raw.push(line)) == (if normalize(line).len() > 0 {
            word_set(raw).insert(normalize(line))
        } else {
            word_set(raw)
        }),
{
    let after = raw.push(line);
    let expected = if normalize(line).len() > 0 {
        word_set(raw).insert(normalize(line))
    } else {
        word_set(raw)
    };
    assert forall|w: Seq<char>| #[trigger] word_set(after).contains(w) == expected.contains(w) by {
        if word_set(after).contains(w) {
            let k = choose|k: int| 0 <= k < after.len() && normalize(#[trigger] after[k]) == w;
            if k < raw.len() {
                assert(raw[k] == after[k]);
            }
        }
        if word_set(raw).contains(w) {
            let k = choose|k: int| 0 <= k < raw.len() && normalize(#[trigger] raw[k]) == w;
            assert(after[k] == raw[k]);
        }
        if normalize(line).len() > 0 && w == normalize(line) {
            assert(after[raw.len() as int] == line);
        }
    }
    assert(word_set(after) =~= expected);
}

} // verus!
