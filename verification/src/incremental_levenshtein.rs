use vstd::prelude::*;

verus! {

/// Bound on the length of the source and of the compared text, so that every
/// cost, and every length, fits in a `u32`.
pub open spec fn cost_limit() -> nat {
    u32::MAX as nat
}

/// The smallest of three costs.
pub open spec fn min3_cost(a: nat, b: nat, c: nat) -> nat {
    if a <= b && a <= c {
        a
    } else if b <= c {
        b
    } else {
        c
    }
}

/// Cost of a substitution: nothing when both characters agree.
pub open spec fn delta_cost(x: char, y: char) -> nat {
    if x == y {
        0
    } else {
        1
    }
}

/// Cost of aligning the whole of `other` with the first `y` characters of
/// `source`, where dropping a character of `other` costs one, dropping a
/// character of `source` costs `skip` (once `other` is not empty), and a
/// substitution costs `delta`. With `skip == 1` this is the Levenshtein
/// distance between `source[..y]` and `other`.
pub open spec fn edit_cost(source: Seq<char>, other: Seq<char>, y: nat, skip: nat) -> nat
    decreases other.len(), y,
{
    if other.len() == 0 {
        y
    } else if y == 0 {
        other.len()
    } else {
        min3_cost(
            edit_cost(source, other.drop_last(), y, skip) + 1,
            edit_cost(source, other, (y - 1) as nat, skip) + skip,
            edit_cost(source, other.drop_last(), (y - 1) as nat, skip) + delta_cost(
                source[y - 1],
                other.last(),
            ),
        )
    }
}

/// `row` holds, for every prefix length `y` of `source`, the cost of aligning
/// `other` with `source[..y]`.
pub open spec fn is_cost_row(row: Seq<u32>, source: Seq<char>, other: Seq<char>, skip: nat) -> bool {
    &&& row.len() == source.len() + 1
    &&& forall|y: int| 0 <= y < row.len() ==> #[trigger] row[y] == edit_cost(source, other, y as nat, skip)
}

/// Every cost is bounded by the length of the longer of the two texts.
pub proof fn lemma_edit_cost_bound(source: Seq<char>, other: Seq<char>, y: nat, skip: nat)
    ensures
        edit_cost(source, other, y, skip) <= if other.len() <= y {
            y
        } else {
            other.len()
        },
    decreases other.len(), y,
{
    if other.len() != 0 && y != 0 {
        lemma_edit_cost_bound(source, other.drop_last(), (y - 1) as nat, skip);
    }
}

/// The Levenshtein distance between `source` and `other`: the least number
/// of insertions, deletions and substitutions of single characters that turn
/// one into the other.
pub open spec fn levenshtein(source: Seq<char>, other: Seq<char>) -> nat {
    edit_cost(source, other, source.len(), 1)
}

/// For each prefix length `y` of `source`, the cost of aligning `other` with
/// `source[..y]` when characters of the source may be left out for free.
pub open spec fn position_row(source: Seq<char>, other: Seq<char>) -> Seq<nat> {
    Seq::new(source.len() + 1, |y: int| edit_cost(source, other, y as nat, 0))
}

/// Reading `row` backwards from `idx`, with `current` the value last seen:
/// the index of the first change of value after `budget` changes have been
/// passed over, or 0 when there are not that many changes.
pub open spec fn match_start(row: Seq<nat>, idx: int, current: nat, budget: nat) -> int
    decreases idx + 1,
{
    if idx < 0 {
        0
    } else if row[idx] != current {
        if budget > 0 {
            match_start(row, idx - 1, row[idx], (budget - 1) as nat)
        } else {
            idx
        }
    } else {
        match_start(row, idx - 1, current, budget)
    }
}

/// Where in `source` the typed text `other` has got to. While `other` has no
/// more than `precision` characters, that is its length. Otherwise the cost
/// row of `position_row` is read from its end backwards; the index at which
/// its value changes for the `precision + 1`-th time (0 when it changes fewer
/// times) is taken as the start of the text that matched, and `precision + 1`
/// is added to it.
pub open spec fn match_position(source: Seq<char>, other: Seq<char>, precision: nat) -> nat {
    if other.len() <= precision {
        other.len()
    } else {
        let row = position_row(source, other);
        (match_start(row, row.len() - 2, row[row.len() - 1], precision) + precision + 1) as nat
    }
}

/// The start found by `match_start` is never past `idx`.
pub proof fn lemma_match_start_bound(row: Seq<nat>, idx: int, current: nat, budget: nat)
    ensures
        0 <= match_start(row, idx, current, budget) <= if idx < 0 {
            0
        } else {
            idx
        },
    decreases idx + 1,
{
    if idx >= 0 {
        if row[idx] != current {
            if budget > 0 {
                lemma_match_start_bound(row, idx - 1, row[idx], (budget - 1) as nat);
            }
        } else {
            lemma_match_start_bound(row, idx - 1, current, budget);
        }
    }
}

/// What an incremental computation is for: the edit distance to the typed
/// text, or where in the source the typed text has got to.
#[derive(Debug, PartialEq, Eq, Structural)]
enum LevenshteinGoal {
    Distance,
    Position,
}

impl LevenshteinGoal {
    /// Cost of leaving a character of the source out.
    spec fn skip_cost(self) -> nat {
        match self {
            LevenshteinGoal::Distance => 1,
            LevenshteinGoal::Position => 0,
        }
    }
}

fn min3(v1: u32, v2: u32, v3: u32) -> (r: u32)
    ensures
        r == min3_cost(v1 as nat, v2 as nat, v3 as nat),
{
    if v1 <= v2 && v1 <= v3 {
        v1
    } else if v2 <= v3 {
        v2
    } else {
        v3
    }
}

fn delta(x: char, y: char) -> (r: u32)
    ensures
        r == delta_cost(x, y),
{
    if x == y {
        0
    } else {
        1
    }
}

/// `s` without its last element; the empty sequence stays empty.
pub open spec fn without_last<A>(s: Seq<A>) -> Seq<A> {
    if s.len() == 0 {
        s
    } else {
        s.drop_last()
    }
}

/// A row of costs, kept up to date as characters are added to `other`, with
/// a saved copy of the row after every tenth character so that removing the
/// last character only recomputes a few rows.
struct IncrementalLevenshtein {
    source: Vec<char>,
    other: Vec<char>,
    cache: Vec<u32>,
    cache_backup: Vec<Option<Vec<u32>>>,
    goal: LevenshteinGoal,
}

/// The cost row of a text that has no character yet: `y` at index `y`.
pub open spec fn initial_row_ok(row: Seq<u32>, len: nat) -> bool {
    &&& row.len() == len + 1
    &&& forall|y: int| 0 <= y < row.len() ==> #[trigger] row[y] == y
}

impl IncrementalLevenshtein {
    spec fn wf(&self) -> bool {
        &&& self.source@.len() < cost_limit()
        &&& self.other@.len() < cost_limit()
        &&& is_cost_row(self.cache@, self.source@, self.other@, self.goal.skip_cost())
        &&& self.cache_backup@.len() == self.other@.len()
        &&& forall|k: int|
            0 <= k < self.cache_backup@.len() ==> (#[trigger] self.cache_backup@[k] matches Some(
                row,
            ) ==> (k + 1) % 10 == 0 && is_cost_row(
                row@,
                self.source@,
                self.other@.take(k + 1),
                self.goal.skip_cost(),
            ))
    }

    fn initial_row(len: usize) -> (row: Vec<u32>)
        requires
            len < cost_limit(),
        ensures
            initial_row_ok(row@, len as nat),
    {
        let mut row: Vec<u32> = Vec::new();
        let mut x: usize = 0;
        while x <= len
            invariant
                x <= len + 1,
                len < cost_limit(),
                row@.len() == x,
                forall|y: int| 0 <= y < x ==> #[trigger] row@[y] == y,
            decreases len + 1 - x,
        {
            row.push(x as u32);
            x = x + 1;
        }
        row
    }

    fn new(source: &str, goal: LevenshteinGoal) -> (r: Self)
        requires
            source@.len() < cost_limit(),
        ensures
            r.wf(),
            r.source@ == source@,
            r.other@ == Seq::<char>::empty(),
            r.goal == goal,
    {
        let mut source_vec: Vec<char> = Vec::new();
        for c in it: source.chars()
            invariant
                it.seq() == source@,
                source_vec@ == source@.take(it.index()),
        {
            source_vec.push(c);
        }
        assert(source_vec@ == source@.take(source@.len() as int));
        let cache = Self::initial_row(source_vec.len());
        Self { source: source_vec, cache_backup: Vec::new(), other: Vec::new(), cache, goal }
    }

    /// The computation for an empty source and an empty text.
    fn empty(goal: LevenshteinGoal) -> (r: Self)
        ensures
            r.wf(),
            r.source@ == Seq::<char>::empty(),
            r.other@ == Seq::<char>::empty(),
            r.goal == goal,
    {
        Self {
            source: Vec::new(),
            cache_backup: Vec::new(),
            other: Vec::new(),
            cache: Self::initial_row(0),
            goal,
        }
    }

    /// Extends `other` by one character and brings the cost row up to date,
    /// saving a copy of the row after every tenth character.
    fn add_other_char(&mut self, source_char: char)
        requires
            old(self).wf(),
            old(self).other@.len() + 1 < cost_limit(),
        ensures
            final(self).wf(),
            final(self).source@ == old(self).source@,
            final(self).goal == old(self).goal,
            final(self).other@ == old(self).other@.push(source_char),
    {
        let ghost old_other = self.other@;
        let ghost src = self.source@;
        let ghost skip = self.goal.skip_cost();
        let ghost old_backup = self.cache_backup@;
        self.other.push(source_char);
        let other_len = self.other.len();
        assert(self.other@.drop_last() == old_other);
        proof {
            lemma_edit_cost_bound(src, self.other@, 0, skip);
        }
        self.cache.set(0, other_len as u32);
        let mut lastdiag: u32 = (other_len - 1) as u32;
        let skip_char: u32 = match self.goal {
            LevenshteinGoal::Distance => 1,
            LevenshteinGoal::Position => 0,
        };
        let n = self.source.len();
        let mut y: usize = 1;
        while y <= n
            invariant
                1 <= y <= n + 1,
                n == src.len(),
                self.source@ == src,
                self.goal.skip_cost() == skip,
                self.cache_backup@ == old_backup,
                skip == skip_char,
                skip <= 1,
                old_other.len() + 1 == other_len,
                self.other@ == old_other.push(source_char),
                self.other@.drop_last() == old_other,
                src.len() < cost_limit(),
                old_other.len() + 1 < cost_limit(),
                self.cache@.len() == n + 1,
                forall|z: int| 0 <= z < y ==> #[trigger] self.cache@[z] == edit_cost(src, self.other@, z as nat, skip),
                forall|z: int| y <= z <= n ==> #[trigger] self.cache@[z] == edit_cost(src, old_other, z as nat, skip),
                lastdiag == edit_cost(src, old_other, (y - 1) as nat, skip),
            decreases n + 1 - y,
        {
            proof {
                lemma_edit_cost_bound(src, old_other, y as nat, skip);
                lemma_edit_cost_bound(src, old_other, (y - 1) as nat, skip);
                lemma_edit_cost_bound(src, self.other@, (y - 1) as nat, skip);
            }
            let olddiag = self.cache[y];
            let value = min3(
                self.cache[y] + 1,
                self.cache[y - 1] + skip_char,
                lastdiag + delta(self.source[y - 1], self.other[other_len - 1]),
            );
            self.cache.set(y, value);
            lastdiag = olddiag;
            y = y + 1;
        }
        let add_to_backup = if other_len % 10 == 0 {
            Some(self.cache.clone())
        } else {
            None
        };
        proof {
            if add_to_backup is Some {
                assert(add_to_backup->0@ == self.cache@);
            }
            assert(self.other@.take(other_len as int) == self.other@);
            assert forall|k: int| 0 <= k < old_other.len() implies #[trigger] self.other@.take(k + 1)
                == old_other.take(k + 1) by {
                assert(self.other@.take(k + 1) =~= old_other.take(k + 1));
            }
        }
        self.cache_backup.push(add_to_backup);
    }

    /// Extends `other` by every character of `text`, in order.
    fn add_other_str(&mut self, text: &str)
        requires
            old(self).wf(),
            old(self).other@.len() + text@.len() < cost_limit(),
        ensures
            final(self).wf(),
            final(self).source@ == old(self).source@,
            final(self).goal == old(self).goal,
            final(self).other@ == old(self).other@ + text@,
    {
        let ghost start = self.other@;
        for chara in it: text.chars()
            invariant
                it.seq() == text@,
                self.wf(),
                self.source@ == old(self).source@,
                self.goal == old(self).goal,
                self.other@ == start + text@.take(it.index()),
                start == old(self).other@,
                start.len() + text@.len() < cost_limit(),
        {
            self.add_other_char(chara);
            assert(start + text@.take(it.index() + 1) == (start + text@.take(it.index())).push(chara));
        }
        assert(text@.take(text@.len() as int) == text@);
    }

    /// Removes the last character of `other`, if there is one, and brings the
    /// cost row back to what it was before that character was added: from the
    /// latest saved row, recomputing the rows of the characters after it.
    fn pop_other_char(&mut self)
        requires
            old(self).wf(),
        ensures
            final(self).wf(),
            final(self).source@ == old(self).source@,
            final(self).goal == old(self).goal,
            final(self).other@ == without_last(old(self).other@),
    {
        let ghost target = without_last(self.other@);
        let ghost src = self.source@;
        let ghost skip = self.goal.skip_cost();
        let ghost old_other = self.other@;
        self.cache_backup.pop();
        self.other.pop();
        proof {
            if old_other.len() > 0 {
                assert(self.other@ == target);
                assert forall|k: int| 0 <= k < self.other@.len() implies #[trigger] self.other@.take(k + 1)
                    == old_other.take(k + 1) by {
                    assert(self.other@.take(k + 1) =~= old_other.take(k + 1));
                }
            } else {
                assert(self.other@ == target);
            }
        }
        let mut chars_to_restore: Vec<char> = Vec::new();
        let mut cache_is_restored = false;
        loop
            invariant_except_break
                !cache_is_restored,
            invariant
                self.source@ == src,
                self.goal.skip_cost() == skip,
                src.len() < cost_limit(),
                target.len() < cost_limit(),
                self.cache_backup@.len() == self.other@.len(),
                forall|k: int|
                    0 <= k < self.cache_backup@.len() ==> (#[trigger] self.cache_backup@[k] matches Some(
                        row,
                    ) ==> (k + 1) % 10 == 0 && is_cost_row(row@, src, self.other@.take(k + 1), skip)),
                self.other@.len() + chars_to_restore@.len() == target.len(),
                self.other@ == target.take(self.other@.len() as int),
                forall|j: int|
                    0 <= j < chars_to_restore@.len() ==> #[trigger] chars_to_restore@[j] == target[target.len()
                        - 1 - j],
            ensures
                cache_is_restored ==> is_cost_row(self.cache@, src, self.other@, skip),
                !cache_is_restored ==> self.other@.len() == 0,
            decreases self.cache_backup@.len(),
        {
            match self.cache_backup.pop() {
                Some(backup) => {
                    if let Some(backed_cache) = backup {
                        proof {
                            assert(self.other@.take(self.other@.len() as int) == self.other@);
                        }
                        self.cache = backed_cache;
                        self.cache_backup.push(None);
                        cache_is_restored = true;
                        break ;
                    }
                    let ghost before = self.other@;
                    let popped = self.other.pop().unwrap();
                    chars_to_restore.push(popped);
                    proof {
                        assert forall|k: int| 0 <= k < self.other@.len() implies #[trigger] self.other@.take(
                            k + 1,
                        ) == before.take(k + 1) by {
                            assert(self.other@.take(k + 1) =~= before.take(k + 1));
                        }
                        assert(self.other@ =~= target.take(self.other@.len() as int));
                    }
                },
                None => {
                    break ;
                },
            }
        }
        if !cache_is_restored {
            self.cache = Self::initial_row(self.source.len());
        }
        let mut i = chars_to_restore.len();
        while i > 0
            invariant
                i <= chars_to_restore@.len(),
                self.wf(),
                self.source@ == src,
                self.goal.skip_cost() == skip,
                self.goal == old(self).goal,
                src.len() < cost_limit(),
                target.len() < cost_limit(),
                self.other@.len() + i == target.len(),
                self.other@ == target.take(self.other@.len() as int),
                forall|j: int|
                    0 <= j < chars_to_restore@.len() ==> #[trigger] chars_to_restore@[j] == target[target.len()
                        - 1 - j],
            decreases i,
        {
            i = i - 1;
            let chara = chars_to_restore[i];
            let ghost before = self.other@;
            self.add_other_char(chara);
            assert(self.other@ =~= target.take(self.other@.len() as int));
        }
        assert(self.other@ =~= target);
    }

    /// The cost of turning all of `source` into `other`.
    fn distance(&self) -> (r: u32)
        requires
            self.wf(),
            self.goal == LevenshteinGoal::Distance,
        ensures
            r == levenshtein(self.source@, self.other@),
    {
        self.cache[self.source.len()]
    }

    /// Where in `source` the text `other` has got to; see `match_position`.
    fn position(&self, precision: usize) -> (r: usize)
        requires
            self.wf(),
            self.goal == LevenshteinGoal::Position,
            self.source@.len() + self.other@.len() <= usize::MAX,
        ensures
            r == match_position(self.source@, self.other@, precision as nat),
    {
        if self.other.len() <= precision {
            return self.other.len();
        }
        let ghost row = position_row(self.source@, self.other@);
        let len = self.cache.len();
        assert(forall|y: int| 0 <= y < len ==> self.cache@[y] == row[y]);
        let mut similarity_start_at: usize = 0;
        let mut current_value = self.cache[len - 1];
        let mut char_counter = precision;
        let mut count = len - 1;
        loop
            invariant_except_break
                similarity_start_at == 0,
                match_start(row, len - 2, row[len - 1], precision as nat) == match_start(
                    row,
                    count - 1,
                    current_value as nat,
                    char_counter as nat,
                ),
            invariant
                self.wf(),
                row == position_row(self.source@, self.other@),
                len == row.len(),
                len == self.source@.len() + 1,
                count < len,
                forall|y: int| 0 <= y < len ==> self.cache@[y] == row[y],
            ensures
                similarity_start_at == match_start(row, len - 2, row[len - 1], precision as nat),
                similarity_start_at < len,
            decreases count,
        {
            if count == 0 {
                proof {
                    lemma_match_start_bound(row, len - 2, row[len - 1], precision as nat);
                }
                break ;
            }
            count = count - 1;
            let this_value = self.cache[count];
            if current_value != this_value {
                if char_counter > 0 {
                    char_counter = char_counter - 1;
                    current_value = this_value;
                } else {
                    similarity_start_at = count;
                    proof {
                        lemma_match_start_bound(row, len - 2, row[len - 1], precision as nat);
                    }
                    break ;
                }
            }
        }
        similarity_start_at = similarity_start_at + (precision + 1);
        similarity_start_at
    }
}

/// The Levenshtein distance between a fixed source text and a text that grows
/// and shrinks at its end, kept up to date one character at a time.
pub struct DistanceIncremental {
    levenshtein: IncrementalLevenshtein,
}

impl DistanceIncremental {
    /// The fixed source text.
    pub closed spec fn source(&self) -> Seq<char> {
        self.levenshtein.source@
    }

    /// The compared text.
    pub closed spec fn other(&self) -> Seq<char> {
        self.levenshtein.other@
    }

    /// The internal cost row is up to date with `source` and `other`.
    #[verifier::type_invariant]
    spec fn inv(self) -> bool {
        &&& self.levenshtein.wf()
        &&& self.levenshtein.goal == LevenshteinGoal::Distance
    }

    /// Starts with an empty compared text.
    pub fn new(source: &str) -> (r: Self)
        requires
            source@.len() < cost_limit(),
        ensures
            r.source() == source@,
            r.other() == Seq::<char>::empty(),
    {
        Self { levenshtein: IncrementalLevenshtein::new(source, LevenshteinGoal::Distance) }
    }

    /// Takes the computation out, leaving an empty one in its place, so that
    /// it can be updated and put back.
    fn take_levenshtein(&mut self) -> (r: IncrementalLevenshtein)
        ensures
            r.wf(),
            r.goal == LevenshteinGoal::Distance,
            r.source@ == old(self).source(),
            r.other@ == old(self).other(),
    {
        proof {
            use_type_invariant(&*self);
        }
        let mut levenshtein = IncrementalLevenshtein::empty(LevenshteinGoal::Distance);
        std::mem::swap(&mut levenshtein, &mut self.levenshtein);
        levenshtein
    }

    /// Appends every character of `text` to the compared text.
    pub fn add_other_str(&mut self, text: &str)
        requires
            old(self).other().len() + text@.len() < cost_limit(),
        ensures
            final(self).source() == old(self).source(),
            final(self).other() == old(self).other() + text@,
    {
        let mut levenshtein = self.take_levenshtein();
        levenshtein.add_other_str(text);
        self.levenshtein = levenshtein;
    }

    /// Appends one character to the compared text.
    pub fn add_other_char(&mut self, chara: char)
        requires
            old(self).other().len() + 1 < cost_limit(),
        ensures
            final(self).source() == old(self).source(),
            final(self).other() == old(self).other().push(chara),
    {
        let mut levenshtein = self.take_levenshtein();
        levenshtein.add_other_char(chara);
        self.levenshtein = levenshtein;
    }

    /// Removes the last character of the compared text, if it has one.
    pub fn pop_other_char(&mut self)
        ensures
            final(self).source() == old(self).source(),
            final(self).other() == without_last(old(self).other()),
    {
        let mut levenshtein = self.take_levenshtein();
        levenshtein.pop_other_char();
        self.levenshtein = levenshtein;
    }

    /// The Levenshtein distance between the source and the compared text.
    pub fn distance(&self) -> (r: u32)
        ensures
            r == levenshtein(self.source(), self.other()),
    {
        proof {
            use_type_invariant(self);
        }
        self.levenshtein.distance()
    }
}

/// How far into a fixed source text a typed text has got, kept up to date one
/// character at a time.
pub struct PositionIncremental {
    levenshtein: IncrementalLevenshtein,
}

impl PositionIncremental {
    /// The fixed source text.
    pub closed spec fn source(&self) -> Seq<char> {
        self.levenshtein.source@
    }

    /// The typed text.
    pub closed spec fn other(&self) -> Seq<char> {
        self.levenshtein.other@
    }

    /// The internal cost row is up to date with `source` and `other`.
    #[verifier::type_invariant]
    spec fn inv(self) -> bool {
        &&& self.levenshtein.wf()
        &&& self.levenshtein.goal == LevenshteinGoal::Position
    }

    /// Starts with an empty typed text.
    pub fn new(source: &str) -> (r: Self)
        requires
            source@.len() < cost_limit(),
        ensures
            r.source() == source@,
            r.other() == Seq::<char>::empty(),
    {
        Self { levenshtein: IncrementalLevenshtein::new(source, LevenshteinGoal::Position) }
    }

    /// Takes the computation out, leaving an empty one in its place, so that
    /// it can be updated and put back.
    fn take_levenshtein(&mut self) -> (r: IncrementalLevenshtein)
        ensures
            r.wf(),
            r.goal == LevenshteinGoal::Position,
            r.source@ == old(self).source(),
            r.other@ == old(self).other(),
    {
        proof {
            use_type_invariant(&*self);
        }
        let mut levenshtein = IncrementalLevenshtein::empty(LevenshteinGoal::Position);
        std::mem::swap(&mut levenshtein, &mut self.levenshtein);
        levenshtein
    }

    /// Appends every character of `text` to the typed text.
    pub fn add_other_str(&mut self, text: &str)
        requires
            old(self).other().len() + text@.len() < cost_limit(),
        ensures
            final(self).source() == old(self).source(),
            final(self).other() == old(self).other() + text@,
    {
        let mut levenshtein = self.take_levenshtein();
        levenshtein.add_other_str(text);
        self.levenshtein = levenshtein;
    }

    /// Appends one character to the typed text.
    pub fn add_other_char(&mut self, chara: char)
        requires
            old(self).other().len() + 1 < cost_limit(),
        ensures
            final(self).source() == old(self).source(),
            final(self).other() == old(self).other().push(chara),
    {
        let mut levenshtein = self.take_levenshtein();
        levenshtein.add_other_char(chara);
        self.levenshtein = levenshtein;
    }

    /// Removes the last character of the typed text, if it has one.
    pub fn pop_other_char(&mut self)
        ensures
            final(self).source() == old(self).source(),
            final(self).other() == without_last(old(self).other()),
    {
        let mut levenshtein = self.take_levenshtein();
        levenshtein.pop_other_char();
        self.levenshtein = levenshtein;
    }

    /// How many characters of the source the typed text covers, counted as
    /// `match_position` says, with `precision` the number of changes of cost
    /// passed over. The two texts together must be countable in a `usize`.
    pub fn position(&self, precision: usize) -> (r: usize)
        requires
            self.source().len() + self.other().len() <= usize::MAX,
        ensures
            r == match_position(self.source(), self.other(), precision as nat),
    {
        proof {
            use_type_invariant(self);
        }
        self.levenshtein.position(precision)
    }
}

/// The distance from any text to the empty text is the text's length.
pub proof fn lemma_distance_to_empty(source: Seq<char>)
    ensures
        levenshtein(source, Seq::<char>::empty()) == source.len(),
{
}

/// The distance from the empty text to any text is that text's length.
pub proof fn lemma_distance_from_empty(other: Seq<char>)
    ensures
        levenshtein(Seq::<char>::empty(), other) == other.len(),
{
}

proof fn lemma_cost_of_own_prefix(s: Seq<char>, i: nat)
    requires
        i <= s.len(),
    ensures
        edit_cost(s, s.take(i as int), i, 1) == 0,
    decreases i,
{
    if i > 0 {
        lemma_cost_of_own_prefix(s, (i - 1) as nat);
        assert(s.take(i as int).drop_last() =~= s.take(i - 1));
    }
}

/// A text is at distance zero from itself.
pub proof fn lemma_distance_to_itself(s: Seq<char>)
    ensures
        levenshtein(s, s) == 0,
{
    lemma_cost_of_own_prefix(s, s.len());
    assert(s.take(s.len() as int) =~= s);
}

proof fn lemma_cost_symmetric(a: Seq<char>, b: Seq<char>, i: nat, j: nat)
    requires
        i <= a.len(),
        j <= b.len(),
    ensures
        edit_cost(a, b.take(j as int), i, 1) == edit_cost(b, a.take(i as int), j, 1),
    decreases i + j,
{
    if i > 0 && j > 0 {
        lemma_cost_symmetric(a, b, i, (j - 1) as nat);
        lemma_cost_symmetric(a, b, (i - 1) as nat, j);
        lemma_cost_symmetric(a, b, (i - 1) as nat, (j - 1) as nat);
        assert(b.take(j as int).drop_last() =~= b.take(j - 1));
        assert(a.take(i as int).drop_last() =~= a.take(i - 1));
    }
}

/// The distance does not depend on which text is the source.
pub proof fn lemma_distance_symmetric(a: Seq<char>, b: Seq<char>)
    ensures
        levenshtein(a, b) == levenshtein(b, a),
{
    lemma_cost_symmetric(a, b, a.len(), b.len());
    assert(a.take(a.len() as int) =~= a);
    assert(b.take(b.len() as int) =~= b);
}

/// Removing a character just added gives back the text as it was, and with
/// it the distance and the position measured on it.
pub proof fn lemma_pop_undoes_add(source: Seq<char>, other: Seq<char>, c: char, precision: nat)
    ensures
        without_last(other.push(c)) == other,
        levenshtein(source, without_last(other.push(c))) == levenshtein(source, other),
        match_position(source, without_last(other.push(c)), precision) == match_position(
            source,
            other,
            precision,
        ),
{
    assert(other.push(c).drop_last() =~= other);
}

/// With free skipping of the source, aligning the first `i` characters of
/// `s` with its first `y` costs what is left over of them.
proof fn lemma_free_skip_cost_of_own_prefix(s: Seq<char>, i: nat, y: nat)
    requires
        i <= s.len(),
    ensures
        edit_cost(s, s.take(i as int), y, 0) == if y <= i {
            (i - y) as nat
        } else if i == 0 {
            y
        } else {
            0
        },
    decreases i, y,
{
    if i > 0 && y > 0 {
        assert(s.take(i as int).drop_last() =~= s.take(i - 1));
        assert(s.take(i as int).last() == s[i - 1]);
        lemma_free_skip_cost_of_own_prefix(s, (i - 1) as nat, y);
        lemma_free_skip_cost_of_own_prefix(s, i, (y - 1) as nat);
        lemma_free_skip_cost_of_own_prefix(s, (i - 1) as nat, (y - 1) as nat);
    }
}

/// On a row that falls by one at every step up to `k`, each index read
/// there is a change.
proof fn lemma_match_start_on_falling_row(row: Seq<nat>, k: nat, idx: int, budget: nat)
    requires
        k < row.len(),
        forall|y: int| 0 <= y <= k ==> #[trigger] row[y] == k - y,
        -1 <= idx < k,
    ensures
        match_start(row, idx, (k - (idx + 1)) as nat, budget) == if budget <= idx {
            idx - budget
        } else {
            0
        },
    decreases idx + 1,
{
    if idx >= 0 && budget > 0 {
        lemma_match_start_on_falling_row(row, k, idx - 1, (budget - 1) as nat);
    }
}

/// Where a row holds zero from `k` on, reading it from there changes nothing.
proof fn lemma_match_start_on_flat_tail(row: Seq<nat>, k: nat, idx: int, budget: nat)
    requires
        forall|y: int| k <= y < row.len() ==> #[trigger] row[y] == 0,
        k <= idx + 1,
        idx < row.len(),
    ensures
        match_start(row, idx, 0, budget) == match_start(row, k - 1, 0, budget),
    decreases idx + 1,
{
    if idx >= k {
        lemma_match_start_on_flat_tail(row, k, idx - 1, budget);
    }
}

/// Typing exactly the first `k` characters of the source puts the position
/// at `k`, whatever the precision.
pub proof fn lemma_exact_prefix_position(source: Seq<char>, k: nat, precision: nat)
    requires
        k <= source.len(),
    ensures
        match_position(source, source.take(k as int), precision) == k,
{
    let n = source.len();
    if k > precision {
        let row = position_row(source, source.take(k as int));
        assert forall|y: int| 0 <= y <= n implies #[trigger] row[y] == if y <= k {
            (k - y) as nat
        } else {
            0
        } by {
            lemma_free_skip_cost_of_own_prefix(source, k, y as nat);
        }
        lemma_match_start_on_flat_tail(row, k, n - 1, precision);
        lemma_match_start_on_falling_row(row, k, k - 1, precision);
    }
}

/// Typing the whole source exactly puts the position at its end, whatever
/// the precision.
pub proof fn lemma_exact_typing_reaches_the_end(source: Seq<char>, precision: nat)
    ensures
        match_position(source, source, precision) == source.len(),
{
    assert(source.take(source.len() as int) =~= source);
    lemma_exact_prefix_position(source, source.len(), precision);
}

/// Costs along the source grow by at most one per character.
proof fn lemma_cost_step(source: Seq<char>, other: Seq<char>, y: nat)
    requires
        y > 0,
    ensures
        edit_cost(source, other, y, 1) <= edit_cost(source, other, (y - 1) as nat, 1) + 1,
{
}

/// Adding a character to `other` moves each cost by at most one.
proof fn lemma_cost_push(source: Seq<char>, other: Seq<char>, c: char, y: nat)
    ensures
        edit_cost(source, other.push(c), y, 1) <= edit_cost(source, other, y, 1) + 1,
        edit_cost(source, other, y, 1) <= edit_cost(source, other.push(c), y, 1) + 1,
    decreases y,
{
    assert(other.push(c).drop_last() =~= other);
    if y > 0 {
        lemma_cost_push(source, other, c, (y - 1) as nat);
        lemma_cost_step(source, other, y);
    }
}

/// Adding one character to the compared text moves the distance by at most
/// one.
pub proof fn lemma_add_moves_distance_by_one(source: Seq<char>, other: Seq<char>, c: char)
    ensures
        levenshtein(source, other.push(c)) <= levenshtein(source, other) + 1,
        levenshtein(source, other) <= levenshtein(source, other.push(c)) + 1,
{
    lemma_cost_push(source, other, c, source.len());
}

/// `other` with the characters of `text` pushed one at a time, in order.
pub open spec fn push_each(other: Seq<char>, text: Seq<char>) -> Seq<char>
    decreases text.len(),
{
    if text.len() == 0 {
        other
    } else {
        push_each(other, text.drop_last()).push(text.last())
    }
}

/// Appending a text at once gives what appending its characters one by one
/// gives.
pub proof fn lemma_add_str_is_add_each_char(other: Seq<char>, text: Seq<char>)
    ensures
        other + text == push_each(other, text),
    decreases text.len(),
{
    if text.len() > 0 {
        lemma_add_str_is_add_each_char(other, text.drop_last());
        assert(other + text =~= (other + text.drop_last()).push(text.last()));
    } else {
        assert(other + text =~= other);
    }
}

/// A cost of zero means `other` is exactly the first `y` characters of
/// `source`.
proof fn lemma_zero_cost_is_prefix(source: Seq<char>, other: Seq<char>, y: nat)
    requires
        y <= source.len(),
        edit_cost(source, other, y, 1) == 0,
    ensures
        other == source.take(y as int),
    decreases other.len(), y,
{
    if other.len() == 0 {
        assert(source.take(0) =~= other);
    } else if y > 0 {
        lemma_edit_cost_bound(source, other.drop_last(), y, 1);
        lemma_zero_cost_is_prefix(source, other.drop_last(), (y - 1) as nat);
        assert(other =~= other.drop_last().push(other.last()));
        assert(source.take(y as int) =~= source.take(y - 1).push(source[y - 1]));
    }
}

/// Two texts are at distance zero exactly when they are equal.
pub proof fn lemma_distance_zero_iff_equal(a: Seq<char>, b: Seq<char>)
    ensures
        levenshtein(a, b) == 0 <==> a == b,
{
    if levenshtein(a, b) == 0 {
        lemma_zero_cost_is_prefix(a, b, a.len());
        assert(a.take(a.len() as int) =~= a);
    }
    if a == b {
        lemma_distance_to_itself(a);
    }
}

/// With one character of `s` replaced, the cost along the diagonal is one
/// once past the replaced index, and zero before it.
proof fn lemma_cost_with_one_replacement(s: Seq<char>, i: int, c: char, j: nat)
    requires
        0 <= i < s.len(),
        j <= s.len(),
    ensures
        edit_cost(s, s.update(i, c).take(j as int), j, 1) <= if j > i {
            1nat
        } else {
            0nat
        },
    decreases j,
{
    if j > 0 {
        lemma_cost_with_one_replacement(s, i, c, (j - 1) as nat);
        let t = s.update(i, c);
        assert(t.take(j as int).drop_last() =~= t.take(j - 1));
        assert(t.take(j as int).last() == t[j - 1]);
    }
}

/// Replacing one character of a text by a different one puts the result at
/// distance exactly one from it.
pub proof fn lemma_one_replacement_is_distance_one(s: Seq<char>, i: int, c: char)
    requires
        0 <= i < s.len(),
        c != s[i],
    ensures
        levenshtein(s, s.update(i, c)) == 1,
{
    lemma_cost_with_one_replacement(s, i, c, s.len());
    assert(s.update(i, c).take(s.len() as int) =~= s.update(i, c));
    lemma_distance_zero_iff_equal(s, s.update(i, c));
    assert(s.update(i, c)[i] != s[i]);
}

/// Aligning the first `k` characters of `s` with its first `y` costs the
/// difference of the two lengths.
proof fn lemma_cost_of_prefix_against_prefix(s: Seq<char>, k: nat, y: nat)
    requires
        k <= s.len(),
        y <= s.len(),
    ensures
        edit_cost(s, s.take(k as int), y, 1) == if y <= k {
            (k - y) as nat
        } else {
            (y - k) as nat
        },
    decreases k, y,
{
    if k > 0 && y > 0 {
        assert(s.take(k as int).drop_last() =~= s.take(k - 1));
        assert(s.take(k as int).last() == s[k - 1]);
        lemma_cost_of_prefix_against_prefix(s, (k - 1) as nat, y);
        lemma_cost_of_prefix_against_prefix(s, k, (y - 1) as nat);
        lemma_cost_of_prefix_against_prefix(s, (k - 1) as nat, (y - 1) as nat);
    }
}

/// A text is at distance `|s| - k` from its first `k` characters.
pub proof fn lemma_distance_to_own_prefix(s: Seq<char>, k: nat)
    requires
        k <= s.len(),
    ensures
        levenshtein(s, s.take(k as int)) == s.len() - k,
{
    lemma_cost_of_prefix_against_prefix(s, k, s.len());
}

/// The start found by `match_start` lies `budget` changes below `idx`, at
/// least: each change passed over moves it down by one.
proof fn lemma_match_start_below_budget(row: Seq<nat>, idx: int, current: nat, budget: nat)
    ensures
        match_start(row, idx, current, budget) <= if budget <= idx {
            idx - budget
        } else {
            0
        },
    decreases idx + 1,
{
    if idx >= 0 {
        if row[idx] != current {
            if budget > 0 {
                lemma_match_start_below_budget(row, idx - 1, row[idx], (budget - 1) as nat);
            }
        } else {
            lemma_match_start_below_budget(row, idx - 1, current, budget);
        }
    }
}

/// Once the typed text is longer than the precision, the position is never
/// past the end of the source, unless the source is itself no longer than
/// the precision, when it is `precision + 1`.
pub proof fn lemma_position_within_source(source: Seq<char>, other: Seq<char>, precision: nat)
    requires
        other.len() > precision,
    ensures
        match_position(source, other, precision) <= if source.len() <= precision {
            precision + 1
        } else {
            source.len()
        },
        match_position(source, other, precision) >= precision + 1,
{
    let row = position_row(source, other);
    lemma_match_start_below_budget(row, row.len() - 2, row[row.len() - 1], precision);
    lemma_match_start_bound(row, row.len() - 2, row[row.len() - 1], precision);
}

} // verus!
