use vstd::prelude::*;

use crate::incremental_levenshtein::{
    cost_limit,
    lemma_exact_prefix_position,
    lemma_exact_typing_reaches_the_end,
    levenshtein,
    match_position,
    without_last,
    DistanceIncremental,
    PositionIncremental,
};

verus! {

/// What `str::to_lowercase` returns for a text.
pub uninterp spec fn str_lowercase(s: Seq<char>) -> Seq<char>;

/// What `char::to_lowercase` yields for a character.
pub uninterp spec fn char_lowercase(c: char) -> Seq<char>;

/// `str::to_lowercase`: the Unicode lowercase form of `s`. The result is
/// named by `str_lowercase` and nothing more is stated of it: which
/// characters it holds comes from the Unicode tables, and its length may
/// differ from that of `s`.
#[verifier::external_body]
fn lowercase_str(s: &str) -> (r: String)
    ensures
        r@ == str_lowercase(s@),
{
    s.to_lowercase()
}

/// `char::to_lowercase`, collected into a `String`: the lowercase mapping of
/// `c`, which its documentation says is one or more characters. Which ones
/// is named by `char_lowercase` and not stated further.
#[verifier::external_body]
fn lowercase_char(c: char) -> (r: String)
    ensures
        r@ == char_lowercase(c),
        r@.len() >= 1,
{
    c.to_lowercase().collect::<String>()
}

/// `String::push`: appends `c`.
#[verifier::external_body]
fn string_push(s: &mut String, c: char)
    ensures
        final(s)@ == old(s)@.push(c),
{
    s.push(c)
}

/// `String::pop`: removes and returns the last character, if there is one.
#[verifier::external_body]
fn string_pop(s: &mut String) -> (r: Option<char>)
    ensures
        final(s)@ == without_last(old(s)@),
        r == (if old(s)@.len() == 0 {
            None
        } else {
            Some(old(s)@.last())
        }),
{
    s.pop()
}

/// Punctuation and line breaks, which count as spaces between words.
pub open spec fn is_ignored(c: char) -> bool {
    c == '\n' || c == '.' || c == ',' || c == '?' || c == '!' || c == ';' || c == ':' || c == '\r'
}

/// A character with punctuation and line breaks turned into a space.
pub open spec fn normalize_char(c: char) -> char {
    if is_ignored(c) {
        ' '
    } else {
        c
    }
}

fn is_ignored_char(c: char) -> (r: bool)
    ensures
        r == is_ignored(c),
{
    c == '\n' || c == '.' || c == ',' || c == '?' || c == '!' || c == ';' || c == ':' || c == '\r'
}

/// What has been learnt of a song text after reading some of its characters.
pub struct TextScan {
    /// The lines already ended by a line break.
    pub lines: Seq<Seq<char>>,
    /// The characters read since the last line break.
    pub this_line: Seq<char>,
    /// The number of line breaks read.
    pub line_count: nat,
    /// The words read so far, separated by single spaces.
    pub words: Seq<char>,
    /// For each character of `words`, the index in the song text it comes
    /// from (for a separating space, that of the next word's first letter).
    pub to_source: Seq<nat>,
    /// For each character of `words`, the line it comes from.
    pub to_lines: Seq<nat>,
    /// The last character read was a space or punctuation.
    pub previous_space: bool,
    /// A character of a word has been read.
    pub met_first: bool,
}

/// The state before any character is read.
pub open spec fn scan_start() -> TextScan {
    TextScan {
        lines: Seq::empty(),
        this_line: Seq::empty(),
        line_count: 0,
        words: Seq::empty(),
        to_source: Seq::empty(),
        to_lines: Seq::empty(),
        previous_space: false,
        met_first: false,
    }
}

/// The state after reading character `c` at index `position` of the text.
pub open spec fn scan_step(st: TextScan, position: nat, c: char) -> TextScan {
    let lines = if c == '\n' {
        st.lines.push(st.this_line)
    } else {
        st.lines
    };
    let this_line = if c == '\n' {
        Seq::empty()
    } else {
        st.this_line.push(c)
    };
    let line_count = if c == '\n' {
        st.line_count + 1
    } else {
        st.line_count
    };
    let ch = normalize_char(c);
    if ch == ' ' {
        TextScan { lines, this_line, line_count, previous_space: true, ..st }
    } else {
        let sep = st.previous_space && st.met_first;
        let words = if sep {
            st.words.push(' ')
        } else {
            st.words
        };
        let to_source = if sep {
            st.to_source.push(position)
        } else {
            st.to_source
        };
        let to_lines = if sep {
            st.to_lines.push(line_count)
        } else {
            st.to_lines
        };
        TextScan {
            lines,
            this_line,
            line_count,
            words: words.push(ch),
            to_source: to_source.push(position),
            to_lines: to_lines.push(line_count),
            previous_space: false,
            met_first: true,
        }
    }
}

/// The state after reading all of `text`.
pub open spec fn scan_text(text: Seq<char>) -> TextScan
    decreases text.len(),
{
    if text.len() == 0 {
        scan_start()
    } else {
        scan_step(scan_text(text.drop_last()), (text.len() - 1) as nat, text.last())
    }
}

/// The lines of a song text: the pieces between line breaks, the last one
/// only if it is not empty.
pub open spec fn song_lines(text: Seq<char>) -> Seq<Seq<char>> {
    let st = scan_text(text);
    if st.this_line.len() != 0 {
        st.lines.push(st.this_line)
    } else {
        st.lines
    }
}

/// The text that typing is scored against: the words of the song, separated
/// by single spaces, in lowercase.
pub open spec fn score_text(text: Seq<char>) -> Seq<char> {
    str_lowercase(scan_text(text).words)
}

/// `v` holds the values of `s`.
pub open spec fn indices_are(v: Seq<usize>, s: Seq<nat>) -> bool {
    &&& v.len() == s.len()
    &&& forall|i: int| 0 <= i < v.len() ==> #[trigger] v[i] == s[i]
}

/// `v` holds the texts of `s`.
pub open spec fn strings_are(v: Seq<String>, s: Seq<Seq<char>>) -> bool {
    &&& v.len() == s.len()
    &&& forall|i: int| 0 <= i < v.len() ==> #[trigger] v[i]@ == s[i]
}

/// How close typing has to be to pick out where it stands in the song.
pub open spec fn typing_precision() -> nat {
    5
}

/// The backspace key.
pub open spec fn is_backspace(c: char) -> bool {
    c == '\u{8}'
}

/// Whether typing `c` writes a letter: it is neither a backspace, nor a space,
/// nor punctuation.
pub open spec fn writes_letter(c: char) -> bool {
    !is_backspace(c) && normalize_char(c) != ' '
}

/// What typing `c` does to the typed text and to the pending space, with
/// `lowered` the lowercase form of `c`: a backspace first drops a pending
/// space, else the last typed character; a space or punctuation leaves a
/// pending space; any other character writes the pending space, if there is
/// one, then `lowered`.
pub open spec fn type_char_as(typed: Seq<char>, previous_space: bool, c: char, lowered: Seq<char>) -> (
    Seq<char>,
    bool,
) {
    if is_backspace(c) {
        if previous_space {
            (typed, false)
        } else {
            (without_last(typed), false)
        }
    } else if normalize_char(c) == ' ' {
        (typed, true)
    } else {
        (
            (if previous_space {
                typed.push(' ')
            } else {
                typed
            }) + lowered,
            false,
        )
    }
}

/// What typing `c` does, with its lowercase form from `char::to_lowercase`.
pub open spec fn type_char(typed: Seq<char>, previous_space: bool, c: char) -> (Seq<char>, bool) {
    type_char_as(typed, previous_space, c, char_lowercase(c))
}

/// What typing every character of `text`, in order, does.
pub open spec fn type_text(typed: Seq<char>, previous_space: bool, text: Seq<char>) -> (
    Seq<char>,
    bool,
)
    decreases text.len(),
{
    if text.len() == 0 {
        (typed, previous_space)
    } else {
        let before = type_text(typed, previous_space, text.drop_last());
        type_char(before.0, before.1, text.last())
    }
}

/// The most by which typing `c` can lengthen the typed text.
pub open spec fn typing_growth(c: char) -> nat {
    growth_as(c, char_lowercase(c).len())
}

/// The most by which typing `c` can lengthen the typed text, when its
/// lowercase form has `lowered_len` characters.
pub open spec fn growth_as(c: char, lowered_len: nat) -> nat {
    if writes_letter(c) {
        lowered_len + 1
    } else {
        0
    }
}

/// The most by which typing `text` can lengthen the typed text.
pub open spec fn text_growth(text: Seq<char>) -> nat
    decreases text.len(),
{
    if text.len() == 0 {
        0
    } else {
        text_growth(text.drop_last()) + typing_growth(text.last())
    }
}

/// The number of source characters matched, and the number of source
/// characters: the length of the source less the edit distance, or nothing
/// when the distance is larger.
pub open spec fn correct_characters(source: Seq<char>, typed: Seq<char>) -> nat {
    let d = levenshtein(source, typed);
    if d <= source.len() {
        (source.len() - d) as nat
    } else {
        0
    }
}

/// The state of a song being typed: its lines, the text typing is scored
/// against, what has been typed, and the incremental distances between the
/// two. `wf` says how the parts agree.
struct SongState {
    music_text_lines: Vec<String>,
    score_source_text: String,
    score_source_text_len: usize,
    typed_text: String,
    previous_character_was_space: bool,
    score_levenshtein: DistanceIncremental,
    position_levenshtein: PositionIncremental,
    map_transformed_to_source: Vec<usize>,
    map_transformed_to_lines: Vec<usize>,
    precision: usize,
}

/// The pieces that reading a song text gives.
struct ScannedText {
    lines: Vec<String>,
    words: String,
    to_source: Vec<usize>,
    to_lines: Vec<usize>,
}

/// The maps of `scanned` have one entry per character of the words, the
/// song text indices in order, and every line entry names one of its lines.
spec fn scanned_is_consistent(scanned: ScannedText) -> bool {
    maps_are_consistent(scanned.to_source@, scanned.to_lines@, scanned.lines@.len())
}

/// Maps of equal length, text indices in order, line numbers below `n_lines`.
pub open spec fn maps_are_consistent(to_source: Seq<usize>, to_lines: Seq<usize>, n_lines: nat) -> bool {
    &&& to_source.len() == to_lines.len()
    &&& forall|i: int, j: int| 0 <= i <= j < to_source.len() ==> to_source[i] <= to_source[j]
    &&& forall|i: int| 0 <= i < to_lines.len() ==> #[trigger] to_lines[i] < n_lines
}

/// Reads a song text into its lines and its words, with the index and the
/// line each character of the words comes from.
fn scan_music_text(music_text: &String) -> (r: ScannedText)
    requires
        music_text@.len() < usize::MAX,
    ensures
        strings_are(r.lines@, song_lines(music_text@)),
        r.words@ == scan_text(music_text@).words,
        indices_are(r.to_source@, scan_text(music_text@).to_source),
        indices_are(r.to_lines@, scan_text(music_text@).to_lines),
        scanned_is_consistent(r),
{
    let ghost text = music_text@;
    let mut music_text_fixed = String::new();
    let mut previous_char_was_space = false;
    let mut met_first_char = false;
    let mut map_transformed_to_source: Vec<usize> = Vec::new();
    let mut music_text_lines: Vec<String> = Vec::new();
    let mut this_line = String::new();
    let mut map_transformed_to_lines: Vec<usize> = Vec::new();
    let mut line_count: usize = 0;
    let mut position: usize = 0;
    for chara in it: music_text.as_str().chars()
        invariant
            it.seq() == text,
            text.len() < usize::MAX,
            position == it.index(),
            line_count <= position,
            ({
                let st = scan_text(text.take(position as int));
                &&& strings_are(music_text_lines@, st.lines)
                &&& this_line@ == st.this_line
                &&& line_count == st.line_count
                &&& music_text_fixed@ == st.words
                &&& indices_are(map_transformed_to_source@, st.to_source)
                &&& indices_are(map_transformed_to_lines@, st.to_lines)
                &&& previous_char_was_space == st.previous_space
                &&& met_first_char == st.met_first
            }),
    {
        let ghost before = scan_text(text.take(position as int));
        assert(text.take(position + 1).drop_last() =~= text.take(position as int));
        assert(scan_text(text.take(position + 1)) == scan_step(before, position as nat, chara));
        if chara == '\n' {
            music_text_lines.push(this_line);
            this_line = String::new();
            line_count = line_count + 1;
        } else {
            string_push(&mut this_line, chara);
        }
        let chara = if is_ignored_char(chara) {
            ' '
        } else {
            chara
        };
        if chara == ' ' {
            previous_char_was_space = true;
        } else {
            if previous_char_was_space && met_first_char {
                string_push(&mut music_text_fixed, ' ');
                map_transformed_to_source.push(position);
                map_transformed_to_lines.push(line_count);
            }
            met_first_char = true;
            string_push(&mut music_text_fixed, chara);
            previous_char_was_space = false;
            map_transformed_to_source.push(position);
            map_transformed_to_lines.push(line_count);
        }
        position = position + 1;
    }
    assert(text.take(text.len() as int) =~= text);
    proof {
        lemma_scan_is_sound(text);
        lemma_word_lines_exist(text);
    }
    if !this_line.as_str().is_empty() {
        music_text_lines.push(this_line);
    }
    ScannedText {
        lines: music_text_lines,
        words: music_text_fixed,
        to_source: map_transformed_to_source,
        to_lines: map_transformed_to_lines,
    }
}

impl SongState {
    /// The lines of the song.
    spec fn text_lines(&self) -> Seq<Seq<char>> {
        self.music_text_lines@.map_values(|l: String| l@)
    }

    /// The text that typing is scored against.
    spec fn source_text(&self) -> Seq<char> {
        self.score_source_text@
    }

    /// What has been typed, as it is scored.
    spec fn typed(&self) -> Seq<char> {
        self.typed_text@
    }

    /// The last character typed was a space or punctuation, not yet written
    /// into the typed text.
    spec fn previous_space(&self) -> bool {
        self.previous_character_was_space
    }

    /// For each character of the song's words, its index in the song text.
    spec fn source_positions(&self) -> Seq<usize> {
        self.map_transformed_to_source@
    }

    /// For each character of the song's words, the line it is on.
    spec fn line_positions(&self) -> Seq<usize> {
        self.map_transformed_to_lines@
    }

    /// The incremental distances follow the source text and the typed text.
    spec fn wf(&self) -> bool {
        &&& self.score_levenshtein.source() == self.score_source_text@
        &&& self.position_levenshtein.source() == self.score_source_text@
        &&& self.score_levenshtein.other() == self.typed_text@
        &&& self.position_levenshtein.other() == self.typed_text@
        &&& self.score_source_text_len == self.score_source_text@.len()
        &&& self.score_source_text@.len() + self.typed_text@.len() < cost_limit()
        &&& self.precision == 5
        &&& maps_are_consistent(
            self.map_transformed_to_source@,
            self.map_transformed_to_lines@,
            self.music_text_lines@.len(),
        )
    }

    /// What reading `text` and typing nothing gives.
    spec fn started_from(self, text: Seq<char>) -> bool {
        self.started_with(text, score_text(text))
    }

    /// What reading `text`, scoring against `score`, and typing nothing
    /// gives.
    spec fn started_with(self, text: Seq<char>, score: Seq<char>) -> bool {
        &&& self.wf()
        &&& self.text_lines() == song_lines(text)
        &&& self.source_text() == score
        &&& self.typed() == Seq::<char>::empty()
        &&& !self.previous_space()
        &&& indices_are(self.source_positions(), scan_text(text).to_source)
        &&& indices_are(self.line_positions(), scan_text(text).to_lines)
    }

    /// Typing left the song alone.
    spec fn same_song(self, other: Self) -> bool {
        &&& self.text_lines() == other.text_lines()
        &&& self.source_text() == other.source_text()
        &&& self.source_positions() == other.source_positions()
        &&& self.line_positions() == other.line_positions()
    }

    /// An empty song, with nothing typed.
    fn placeholder() -> (r: Self)
        ensures
            r.wf(),
    {
        let empty = String::new();
        Self {
            music_text_lines: Vec::new(),
            typed_text: String::new(),
            score_source_text_len: 0,
            score_levenshtein: DistanceIncremental::new(empty.as_str()),
            position_levenshtein: PositionIncremental::new(empty.as_str()),
            score_source_text: empty,
            previous_character_was_space: false,
            map_transformed_to_source: Vec::new(),
            map_transformed_to_lines: Vec::new(),
            precision: 5,
        }
    }

    fn from_scanned(scanned: ScannedText, score_source_text_final: String) -> (r: Self)
        requires
            score_source_text_final@.len() < cost_limit(),
            scanned_is_consistent(scanned),
        ensures
            r.wf(),
            r.music_text_lines == scanned.lines,
            r.score_source_text@ == score_source_text_final@,
            r.typed_text@ == Seq::<char>::empty(),
            !r.previous_character_was_space,
            r.map_transformed_to_source == scanned.to_source,
            r.map_transformed_to_lines == scanned.to_lines,
    {
        let len = score_source_text_final.as_str().unicode_len();
        Self {
            music_text_lines: scanned.lines,
            typed_text: String::new(),
            score_source_text_len: len,
            score_levenshtein: DistanceIncremental::new(score_source_text_final.as_str()),
            position_levenshtein: PositionIncremental::new(score_source_text_final.as_str()),
            score_source_text: score_source_text_final,
            previous_character_was_space: false,
            map_transformed_to_source: scanned.to_source,
            map_transformed_to_lines: scanned.to_lines,
            precision: 5,
        }
    }

    /// Reads a song text: its lines, and the lowercase words that typing is
    /// scored against, each character mapped back to the song text.
    fn new(music_text: String) -> (r: Self)
        requires
            music_text@.len() < usize::MAX,
            score_text(music_text@).len() < cost_limit(),
        ensures
            r.started_from(music_text@),
    {
        let scanned = scan_music_text(&music_text);
        let score_source_text_final = lowercase_str(scanned.words.as_str());
        let r = Self::from_scanned(scanned, score_source_text_final);
        assert(r.text_lines() =~= song_lines(music_text@));
        r
    }

    /// Reads a song text as `new` does, with `lowered_words` standing for
    /// the lowercase form of its words.
    fn with_lowercased_words(music_text: String, lowered_words: String) -> (r: Self)
        requires
            music_text@.len() < usize::MAX,
            lowered_words@.len() < cost_limit(),
        ensures
            r.started_with(music_text@, lowered_words@),
    {
        let scanned = scan_music_text(&music_text);
        let r = Self::from_scanned(scanned, lowered_words);
        assert(r.text_lines() =~= song_lines(music_text@));
        r
    }

    /// Like `new`, for any text: `None` when the text is too long for the
    /// character counters, or its lowercase words for the edit costs.
    fn try_new(music_text: String) -> (r: Option<Self>)
        ensures
            r is Some <==> (music_text@.len() < usize::MAX && score_text(music_text@).len()
                < cost_limit()),
            r matches Some(m) ==> m.started_from(music_text@),
    {
        let n = music_text.as_str().unicode_len();
        if n == usize::MAX {
            return None;
        }
        let scanned = scan_music_text(&music_text);
        let lowered = lowercase_str(scanned.words.as_str());
        let len = lowered.as_str().unicode_len();
        if len < 4294967295usize {
            let r = Self::from_scanned(scanned, lowered);
            assert(r.text_lines() =~= song_lines(music_text@));
            Some(r)
        } else {
            None
        }
    }

    fn push_char_for_score(&mut self, chara: char)
        requires
            old(self).wf(),
            old(self).source_text().len() + old(self).typed().len() + 1 < cost_limit(),
        ensures
            final(self).wf(),
            final(self).same_song(*old(self)),
            final(self).typed() == old(self).typed().push(chara),
            final(self).previous_space() == old(self).previous_space(),
    {
        string_push(&mut self.typed_text, chara);
        self.score_levenshtein.add_other_char(chara);
        self.position_levenshtein.add_other_char(chara);
    }

    fn push_str_for_score(&mut self, text: &str)
        requires
            old(self).wf(),
            old(self).source_text().len() + old(self).typed().len() + text@.len() < cost_limit(),
        ensures
            final(self).wf(),
            final(self).same_song(*old(self)),
            final(self).typed() == old(self).typed() + text@,
            final(self).previous_space() == old(self).previous_space(),
    {
        self.typed_text.append(text);
        self.score_levenshtein.add_other_str(text);
        self.position_levenshtein.add_other_str(text);
    }

    fn pop_char_for_score(&mut self)
        requires
            old(self).wf(),
        ensures
            final(self).wf(),
            final(self).same_song(*old(self)),
            final(self).typed() == without_last(old(self).typed()),
            final(self).previous_space() == old(self).previous_space(),
    {
        string_pop(&mut self.typed_text);
        self.score_levenshtein.pop_other_char();
        self.position_levenshtein.pop_other_char();
    }

    /// Types one character, as `type_char` says.
    fn add_typed_char(&mut self, chara: char)
        requires
            old(self).wf(),
            old(self).source_text().len() + old(self).typed().len() + typing_growth(chara)
                < cost_limit(),
        ensures
            final(self).wf(),
            final(self).same_song(*old(self)),
            (final(self).typed(), final(self).previous_space()) == type_char(
                old(self).typed(),
                old(self).previous_space(),
                chara,
            ),
    {
        if chara == '\u{8}' || is_ignored_char(chara) || chara == ' ' {
            self.add_typed_char_lowered(chara, "");
        } else {
            let str_to_add = lowercase_char(chara);
            self.add_typed_char_lowered(chara, str_to_add.as_str());
        }
    }

    /// Types one character whose lowercase form is `lowered`, as
    /// `type_char_as` says.
    fn add_typed_char_lowered(&mut self, chara: char, lowered: &str)
        requires
            old(self).wf(),
            old(self).source_text().len() + old(self).typed().len() + growth_as(
                chara,
                lowered@.len(),
            ) < cost_limit(),
        ensures
            final(self).wf(),
            final(self).same_song(*old(self)),
            (final(self).typed(), final(self).previous_space()) == type_char_as(
                old(self).typed(),
                old(self).previous_space(),
                chara,
                lowered@,
            ),
    {
        if chara == '\u{8}' {
            if self.previous_character_was_space {
                self.previous_character_was_space = false;
            } else {
                self.pop_char_for_score();
            }
        } else {
            let chara = if is_ignored_char(chara) {
                ' '
            } else {
                chara
            };
            if chara == ' ' {
                self.previous_character_was_space = true;
            } else {
                if self.previous_character_was_space {
                    self.push_char_for_score(' ');
                }
                self.push_str_for_score(lowered);
                self.previous_character_was_space = false;
            }
        }
    }

    /// Types every character of `text`, in order, as `type_text` says.
    fn add_typed_text(&mut self, text: &str)
        requires
            old(self).wf(),
            old(self).source_text().len() + old(self).typed().len() + text_growth(text@)
                < cost_limit(),
        ensures
            final(self).wf(),
            final(self).same_song(*old(self)),
            (final(self).typed(), final(self).previous_space()) == type_text(
                old(self).typed(),
                old(self).previous_space(),
                text@,
            ),
    {
        let ghost typed0 = self.typed();
        for chara in it: text.chars()
            invariant
                it.seq() == text@,
                self.wf(),
                self.same_song(*old(self)),
                typed0 == old(self).typed(),
                old(self).source_text().len() + typed0.len() + text_growth(text@) < cost_limit(),
                (self.typed(), self.previous_space()) == type_text(
                    typed0,
                    old(self).previous_space(),
                    text@.take(it.index()),
                ),
                self.typed().len() <= typed0.len() + text_growth(text@.take(it.index())),
        {
            let ghost i = it.index();
            proof {
                assert(text@.take(i + 1).drop_last() =~= text@.take(i));
                lemma_text_growth_prefix(text@, i + 1);
                lemma_type_char_growth(self.typed(), self.previous_space(), chara);
            }
            self.add_typed_char(chara);
        }
        assert(text@.take(text@.len() as int) =~= text@);
    }

    /// Types `chara` when the typed text has room for it, as `add_typed_char`
    /// does, and says whether it did; otherwise leaves everything as it was.
    fn try_add_typed_char(&mut self, chara: char) -> (accepted: bool)
        requires
            old(self).wf(),
        ensures
            accepted <==> old(self).source_text().len() + old(self).typed().len() + typing_growth(
                chara,
            ) < cost_limit(),
            accepted ==> final(self).wf() && final(self).same_song(*old(self)) && (
            final(self).typed(),
            final(self).previous_space(),
            ) == type_char(old(self).typed(), old(self).previous_space(), chara),
            !accepted ==> *final(self) == *old(self),
    {
        let room = self.room_left();
        match char_growth(chara) {
            Some(growth) => {
                if growth < room {
                    self.add_typed_char(chara);
                    true
                } else {
                    false
                }
            },
            None => false,
        }
    }

    /// Types `text` when the typed text has room for all of it, as
    /// `add_typed_text` does, and says whether it did; otherwise leaves
    /// everything as it was.
    fn try_add_typed_text(&mut self, text: &str) -> (accepted: bool)
        requires
            old(self).wf(),
        ensures
            accepted <==> old(self).source_text().len() + old(self).typed().len() + text_growth(
                text@,
            ) < cost_limit(),
            accepted ==> final(self).wf() && final(self).same_song(*old(self)) && (
            final(self).typed(),
            final(self).previous_space(),
            ) == type_text(old(self).typed(), old(self).previous_space(), text@),
            !accepted ==> *final(self) == *old(self),
    {
        let room = self.room_left();
        let mut total: usize = 0;
        for chara in it: text.chars()
            invariant
                it.seq() == text@,
                total == text_growth(text@.take(it.index())),
                total < room,
                room as nat + self.source_text().len() + self.typed().len() == cost_limit(),
        {
            let ghost i = it.index();
            assert(text@.take(i + 1).drop_last() =~= text@.take(i));
            match char_growth(chara) {
                Some(growth) => {
                    if growth >= room - total {
                        proof {
                            lemma_text_growth_prefix(text@, i + 1);
                        }
                        return false;
                    }
                    total = total + growth;
                },
                None => {
                    proof {
                        lemma_text_growth_prefix(text@, i + 1);
                    }
                    return false;
                },
            }
        }
        assert(text@.take(text@.len() as int) =~= text@);
        self.add_typed_text(text);
        true
    }

    /// How many more characters the edit costs allow: `cost_limit()` less the
    /// lengths of the source text and the typed text.
    fn room_left(&self) -> (r: usize)
        requires
            self.wf(),
        ensures
            r as nat + self.source_text().len() + self.typed().len() == cost_limit(),
    {
        let typed_len = self.typed_text.as_str().unicode_len();
        4294967295usize - self.score_source_text_len - typed_len
    }

    /// What has been typed, as it is scored.
    fn get_typed_text(&self) -> (r: &str)
        ensures
            r@ == self.typed(),
    {
        self.typed_text.as_str()
    }

    /// The number of source characters matched by the typed text, and the
    /// number of source characters; the share of the two is how correct the
    /// typing is.
    fn correctness_ratio(&self) -> (r: (u32, u32))
        requires
            self.wf(),
        ensures
            r.0 == correct_characters(self.source_text(), self.typed()),
            r.1 == self.source_text().len(),
    {
        let number_of_required_change = self.score_levenshtein.distance();
        let number_of_maximal_change = self.score_source_text_len as u32;
        let number_of_valid_character = if let Some(number) = number_of_maximal_change.checked_sub(
            number_of_required_change,
        ) {
            number
        } else {
            0
        };
        (number_of_valid_character, number_of_maximal_change)
    }

    /// Where the typing has got to in the song text: the index in the song
    /// text of the word character at `match_position`, or the length of the
    /// source text when that position is past the words.
    fn position_in_source_text(&self) -> (r: usize)
        requires
            self.wf(),
        ensures
            ({
                let p = match_position(self.source_text(), self.typed(), typing_precision());
                r == if p < self.source_positions().len() {
                    self.source_positions()[p as int] as nat
                } else {
                    self.source_text().len()
                }
            }),
    {
        let transformed_position = self.position_levenshtein.position(self.precision);
        if transformed_position < self.map_transformed_to_source.len() {
            self.map_transformed_to_source[transformed_position]
        } else {
            self.score_source_text_len
        }
    }

    /// The line of the song the typing has got to: the line of the word
    /// character at `match_position`, or the number of lines when that
    /// position is past the words.
    fn position_in_source_lines(&self) -> (r: usize)
        requires
            self.wf(),
        ensures
            ({
                let p = match_position(self.source_text(), self.typed(), typing_precision());
                r == if p < self.line_positions().len() {
                    self.line_positions()[p as int] as nat
                } else {
                    self.text_lines().len()
                }
            }),
            r <= self.text_lines().len(),
            match_position(self.source_text(), self.typed(), typing_precision())
                < self.line_positions().len() ==> r < self.text_lines().len(),
    {
        let transformed_position = self.position_levenshtein.position(self.precision);
        if transformed_position < self.map_transformed_to_lines.len() {
            self.map_transformed_to_lines[transformed_position]
        } else {
            self.music_text_lines.len()
        }
    }

    /// The lines of the song.
    fn lines(&self) -> (r: &Vec<String>)
        ensures
            strings_are(r@, self.text_lines()),
    {
        &self.music_text_lines
    }
}

/// A song being typed: its lines, the text typing is scored against, what has
/// been typed, and how close the two are.
pub struct PlayingMusic {
    state: SongState,
}

impl PlayingMusic {
    /// The parts of the song agree with each other.
    #[verifier::type_invariant]
    spec fn inv(self) -> bool {
        self.state.wf()
    }

    /// The lines of the song.
    pub closed spec fn text_lines(&self) -> Seq<Seq<char>> {
        self.state.text_lines()
    }

    /// The text that typing is scored against.
    pub closed spec fn source_text(&self) -> Seq<char> {
        self.state.source_text()
    }

    /// What has been typed, as it is scored.
    pub closed spec fn typed(&self) -> Seq<char> {
        self.state.typed()
    }

    /// The last character typed was a space or punctuation, not yet written
    /// into the typed text.
    pub closed spec fn previous_space(&self) -> bool {
        self.state.previous_space()
    }

    /// For each character of the song's words, its index in the song text.
    pub closed spec fn source_positions(&self) -> Seq<usize> {
        self.state.source_positions()
    }

    /// For each character of the song's words, the line it is on.
    pub closed spec fn line_positions(&self) -> Seq<usize> {
        self.state.line_positions()
    }

    /// What reading `text` and typing nothing gives.
    pub open spec fn started_from(self, text: Seq<char>) -> bool {
        self.started_with(text, score_text(text))
    }

    /// What reading `text`, scoring against `score`, and typing nothing
    /// gives.
    pub open spec fn started_with(self, text: Seq<char>, score: Seq<char>) -> bool {
        &&& self.text_lines() == song_lines(text)
        &&& self.source_text() == score
        &&& self.typed() == Seq::<char>::empty()
        &&& !self.previous_space()
        &&& indices_are(self.source_positions(), scan_text(text).to_source)
        &&& indices_are(self.line_positions(), scan_text(text).to_lines)
    }

    /// Typing left the song alone.
    pub open spec fn same_song(self, other: Self) -> bool {
        &&& self.text_lines() == other.text_lines()
        &&& self.source_text() == other.source_text()
        &&& self.source_positions() == other.source_positions()
        &&& self.line_positions() == other.line_positions()
    }

    /// Takes the state out, leaving an empty song in its place, so that it
    /// can be updated and put back.
    fn take_state(&mut self) -> (r: SongState)
        ensures
            r.wf(),
            r == old(self).state,
    {
        proof {
            use_type_invariant(&*self);
        }
        let mut state = SongState::placeholder();
        std::mem::swap(&mut state, &mut self.state);
        state
    }

    /// Reads a song text: its lines, and the lowercase words that typing is
    /// scored against, each character mapped back to the song text.
    pub fn new(music_text: String) -> (r: Self)
        requires
            music_text@.len() < usize::MAX,
            score_text(music_text@).len() < cost_limit(),
        ensures
            r.started_from(music_text@),
    {
        Self { state: SongState::new(music_text) }
    }

    /// Reads a song text as `new` does, with `lowered_words` standing for
    /// the lowercase form of its words.
    pub fn with_lowercased_words(music_text: String, lowered_words: String) -> (r: Self)
        requires
            music_text@.len() < usize::MAX,
            lowered_words@.len() < cost_limit(),
        ensures
            r.started_with(music_text@, lowered_words@),
    {
        Self { state: SongState::with_lowercased_words(music_text, lowered_words) }
    }

    /// Like `new`, for any text: `None` when the text is too long for the
    /// character counters, or its lowercase words for the edit costs.
    pub fn try_new(music_text: String) -> (r: Option<Self>)
        ensures
            r is Some <==> (music_text@.len() < usize::MAX && score_text(music_text@).len()
                < cost_limit()),
            r matches Some(m) ==> m.started_from(music_text@),
    {
        match SongState::try_new(music_text) {
            Some(state) => Some(Self { state }),
            None => None,
        }
    }

    /// Types one character, as `type_char` says.
    pub fn add_typed_char(&mut self, chara: char)
        requires
            old(self).source_text().len() + old(self).typed().len() + typing_growth(chara)
                < cost_limit(),
        ensures
            final(self).same_song(*old(self)),
            (final(self).typed(), final(self).previous_space()) == type_char(
                old(self).typed(),
                old(self).previous_space(),
                chara,
            ),
    {
        let mut state = self.take_state();
        state.add_typed_char(chara);
        self.state = state;
    }

    /// Types one character whose lowercase form is `lowered`, as
    /// `type_char_as` says.
    pub fn add_typed_char_lowered(&mut self, chara: char, lowered: &str)
        requires
            old(self).source_text().len() + old(self).typed().len() + growth_as(
                chara,
                lowered@.len(),
            ) < cost_limit(),
        ensures
            final(self).same_song(*old(self)),
            (final(self).typed(), final(self).previous_space()) == type_char_as(
                old(self).typed(),
                old(self).previous_space(),
                chara,
                lowered@,
            ),
    {
        let mut state = self.take_state();
        state.add_typed_char_lowered(chara, lowered);
        self.state = state;
    }

    /// Types every character of `text`, in order, as `type_text` says.
    pub fn add_typed_text(&mut self, text: &str)
        requires
            old(self).source_text().len() + old(self).typed().len() + text_growth(text@)
                < cost_limit(),
        ensures
            final(self).same_song(*old(self)),
            (final(self).typed(), final(self).previous_space()) == type_text(
                old(self).typed(),
                old(self).previous_space(),
                text@,
            ),
    {
        let mut state = self.take_state();
        state.add_typed_text(text);
        self.state = state;
    }

    /// Types `chara` when the typed text has room for it, as `add_typed_char`
    /// does, and says whether it did; otherwise leaves everything as it was.
    pub fn try_add_typed_char(&mut self, chara: char) -> (accepted: bool)
        ensures
            accepted <==> old(self).source_text().len() + old(self).typed().len() + typing_growth(
                chara,
            ) < cost_limit(),
            accepted ==> final(self).same_song(*old(self)) && (
            final(self).typed(),
            final(self).previous_space(),
            ) == type_char(old(self).typed(), old(self).previous_space(), chara),
            !accepted ==> *final(self) == *old(self),
    {
        let mut state = self.take_state();
        let accepted = state.try_add_typed_char(chara);
        self.state = state;
        accepted
    }

    /// Types `text` when the typed text has room for all of it, as
    /// `add_typed_text` does, and says whether it did; otherwise leaves
    /// everything as it was.
    pub fn try_add_typed_text(&mut self, text: &str) -> (accepted: bool)
        ensures
            accepted <==> old(self).source_text().len() + old(self).typed().len() + text_growth(
                text@,
            ) < cost_limit(),
            accepted ==> final(self).same_song(*old(self)) && (
            final(self).typed(),
            final(self).previous_space(),
            ) == type_text(old(self).typed(), old(self).previous_space(), text@),
            !accepted ==> *final(self) == *old(self),
    {
        let mut state = self.take_state();
        let accepted = state.try_add_typed_text(text);
        self.state = state;
        accepted
    }

    /// What has been typed, as it is scored.
    pub fn get_typed_text(&self) -> (r: &str)
        ensures
            r@ == self.typed(),
    {
        self.state.get_typed_text()
    }

    /// The number of source characters matched by the typed text, and the
    /// number of source characters; the share of the two is how correct the
    /// typing is.
    pub fn correctness_ratio(&self) -> (r: (u32, u32))
        ensures
            r.0 == correct_characters(self.source_text(), self.typed()),
            r.1 == self.source_text().len(),
    {
        proof {
            use_type_invariant(self);
        }
        self.state.correctness_ratio()
    }

    /// Where the typing has got to in the song text: the index in the song
    /// text of the word character at `match_position`, or the length of the
    /// source text when that position is past the words.
    pub fn position_in_source_text(&self) -> (r: usize)
        ensures
            ({
                let p = match_position(self.source_text(), self.typed(), typing_precision());
                r == if p < self.source_positions().len() {
                    self.source_positions()[p as int] as nat
                } else {
                    self.source_text().len()
                }
            }),
    {
        proof {
            use_type_invariant(self);
        }
        self.state.position_in_source_text()
    }

    /// The line of the song the typing has got to: the line of the word
    /// character at `match_position`, or the number of lines when that
    /// position is past the words.
    pub fn position_in_source_lines(&self) -> (r: usize)
        ensures
            ({
                let p = match_position(self.source_text(), self.typed(), typing_precision());
                r == if p < self.line_positions().len() {
                    self.line_positions()[p as int] as nat
                } else {
                    self.text_lines().len()
                }
            }),
            r <= self.text_lines().len(),
            match_position(self.source_text(), self.typed(), typing_precision())
                < self.line_positions().len() ==> r < self.text_lines().len(),
    {
        proof {
            use_type_invariant(self);
        }
        self.state.position_in_source_lines()
    }

    /// Whether the position found falls on a character of the song's words,
    /// so that `position_in_source_text` and `position_in_source_lines` map
    /// it back; when it does not, both give their fallback value.
    pub fn position_is_within_words(&self) -> (r: bool)
        ensures
            r == (match_position(self.source_text(), self.typed(), typing_precision())
                < self.source_positions().len()),
            self.source_positions().len() == self.line_positions().len(),
    {
        proof {
            use_type_invariant(self);
        }
        let transformed_position = self.state.position_levenshtein.position(self.state.precision);
        transformed_position < self.state.map_transformed_to_source.len()
    }

    /// The lines of the song.
    pub fn lines(&self) -> (r: &Vec<String>)
        ensures
            strings_are(r@, self.text_lines()),
    {
        self.state.lines()
    }
}

/// How much typing `chara` can lengthen the typed text, when that fits in a
/// `usize`.
fn char_growth(chara: char) -> (r: Option<usize>)
    ensures
        r matches Some(g) ==> g == typing_growth(chara),
        r is None ==> typing_growth(chara) > usize::MAX,
{
    if chara == '\u{8}' || is_ignored_char(chara) || chara == ' ' {
        Some(0)
    } else {
        let lowered = lowercase_char(chara);
        let len = lowered.as_str().unicode_len();
        if len < usize::MAX {
            Some(len + 1)
        } else {
            None
        }
    }
}

/// Typing `c` lengthens the typed text by at most `typing_growth(c)`.
proof fn lemma_type_char_growth(typed: Seq<char>, previous_space: bool, c: char)
    ensures
        type_char(typed, previous_space, c).0.len() <= typed.len() + typing_growth(c),
{
}

/// The growth of a prefix is no more than that of the whole text.
proof fn lemma_text_growth_prefix(text: Seq<char>, i: int)
    requires
        0 <= i <= text.len(),
    ensures
        text_growth(text.take(i)) <= text_growth(text),
    decreases text.len(),
{
    if i < text.len() {
        assert(text.drop_last().take(i) =~= text.take(i));
        lemma_text_growth_prefix(text.drop_last(), i);
    } else {
        assert(text.take(i) =~= text);
    }
}

/// What reading a text keeps true of what it has learnt.
pub open spec fn scan_is_sound(text: Seq<char>, st: TextScan) -> bool {
    &&& st.words.len() == st.to_source.len()
    &&& st.words.len() == st.to_lines.len()
    &&& st.met_first <==> st.words.len() > 0
    &&& forall|i: int| 0 <= i < st.to_source.len() ==> #[trigger] st.to_source[i] < text.len()
    &&& forall|i: int, j: int|
        0 <= i <= j < st.to_source.len() ==> st.to_source[i] <= st.to_source[j]
    &&& forall|i: int| 0 <= i < st.to_lines.len() ==> #[trigger] st.to_lines[i] <= st.line_count
    &&& forall|i: int|
        0 <= i < st.to_lines.len() ==> #[trigger] st.to_lines[i] == st.line_count
            ==> st.this_line.len() > 0
    &&& st.line_count == st.lines.len()
    &&& forall|i: int| 0 <= i < st.words.len() ==> !is_ignored(#[trigger] st.words[i])
    &&& st.words.len() > 0 ==> st.words[0] != ' ' && st.words.last() != ' '
    &&& forall|i: int|
        0 <= i < st.words.len() - 1 ==> #[trigger] st.words[i] == ' ' ==> st.words[i + 1] != ' '
    &&& forall|i: int| 0 <= i < st.this_line.len() ==> #[trigger] st.this_line[i] != '\n'
    &&& forall|k: int, i: int|
        0 <= k < st.lines.len() && 0 <= i < st.lines[k].len() ==> #[trigger] st.lines[k][i] != '\n'
}

/// Reading a song text keeps the words apart by single spaces, with no
/// punctuation, no line break, no space at either end; maps each of their
/// characters to an index of the text, in order, and to a line; and splits
/// the text into lines that hold no line break.
pub proof fn lemma_scan_is_sound(text: Seq<char>)
    ensures
        scan_is_sound(text, scan_text(text)),
    decreases text.len(),
{
    if text.len() > 0 {
        lemma_scan_is_sound(text.drop_last());
        let st = scan_text(text.drop_last());
        let c = text.last();
        let st2 = scan_text(text);
        if c == '\n' {
            assert forall|k: int, i: int|
                0 <= k < st2.lines.len() && 0 <= i < st2.lines[k].len() implies #[trigger] st2.lines[k][i]
                != '\n' by {
                if k < st.lines.len() {
                    assert(st2.lines[k] == st.lines[k]);
                } else {
                    assert(st2.lines[k] == st.this_line);
                }
            }
        } else {
            assert(st2.lines == st.lines);
        }
    }
}

/// The lines of a song hold no line break.
pub proof fn lemma_song_lines_unbroken(text: Seq<char>)
    ensures
        forall|k: int, i: int|
            0 <= k < song_lines(text).len() && 0 <= i < song_lines(text)[k].len() ==> #[trigger] song_lines(
                text,
            )[k][i] != '\n',
{
    lemma_scan_is_sound(text);
    let st = scan_text(text);
    assert forall|k: int, i: int|
        0 <= k < song_lines(text).len() && 0 <= i < song_lines(text)[k].len() implies #[trigger] song_lines(
            text,
        )[k][i] != '\n' by {
        if k < st.lines.len() {
            assert(song_lines(text)[k] == st.lines[k]);
        } else {
            assert(song_lines(text)[k] == st.this_line);
        }
    }
}

/// Every character of the song's words lies on one of its lines.
pub proof fn lemma_word_lines_exist(text: Seq<char>)
    ensures
        forall|i: int|
            0 <= i < scan_text(text).to_lines.len() ==> #[trigger] scan_text(text).to_lines[i]
                < song_lines(text).len(),
{
    lemma_scan_is_sound(text);
}

/// Each of the line break, the carriage return and the punctuation marks
/// `. , ? ! ; :` types exactly like a space.
pub proof fn lemma_punctuation_is_space(typed: Seq<char>, previous_space: bool, c: char)
    requires
        c == '\n' || c == '.' || c == ',' || c == '?' || c == '!' || c == ';' || c == ':' || c == '\r',
    ensures
        type_char(typed, previous_space, c) == type_char(typed, previous_space, ' '),
{
}

/// Several spaces in a row type like one.
pub proof fn lemma_spaces_collapse(typed: Seq<char>, previous_space: bool)
    ensures
        ({
            let once = type_char(typed, previous_space, ' ');
            type_char(once.0, once.1, ' ') == once
        }),
{
}

/// A backspace right after a space takes the pending space back: the typed
/// text is as it was, and no space is pending.
pub proof fn lemma_backspace_cancels_space(typed: Seq<char>, previous_space: bool)
    ensures
        ({
            let spaced = type_char(typed, previous_space, ' ');
            type_char(spaced.0, spaced.1, '\u{8}') == (typed, false)
        }),
{
}

/// A backspace right after a character whose lowercase form is a single
/// character, typed with no space pending, takes it back.
pub proof fn lemma_backspace_cancels_char(typed: Seq<char>, c: char)
    requires
        !is_backspace(c),
        normalize_char(c) != ' ',
        char_lowercase(c).len() == 1,
    ensures
        ({
            let written = type_char(typed, false, c);
            type_char(written.0, written.1, '\u{8}') == (typed, false)
        }),
{
    assert((typed + char_lowercase(c)).drop_last() =~= typed);
}

/// Typing the source text exactly scores every character as correct.
pub proof fn lemma_exact_typing_is_correct(source: Seq<char>)
    ensures
        correct_characters(source, source) == source.len(),
{
    crate::incremental_levenshtein::lemma_distance_to_itself(source);
}

/// The number of correct characters never exceeds the length of the source.
pub proof fn lemma_correct_at_most_source(source: Seq<char>, typed: Seq<char>)
    ensures
        correct_characters(source, typed) <= source.len(),
{
}

/// `words` with each character other than a space replaced by its
/// lowercase form from `char::to_lowercase`.
pub open spec fn lower_each(words: Seq<char>) -> Seq<char>
    decreases words.len(),
{
    if words.len() == 0 {
        words
    } else {
        lower_each(words.drop_last()) + if words.last() == ' ' {
            seq![' ']
        } else {
            char_lowercase(words.last())
        }
    }
}

/// Typing a song text as it is written, starting from nothing, writes its
/// words with single spaces between them, each character lowercased one by
/// one; a space is left pending exactly when the text ends in spaces or
/// punctuation after a word. This holds for texts without backspace whose
/// first character is part of a word.
pub proof fn lemma_typing_the_song(text: Seq<char>)
    requires
        forall|i: int| 0 <= i < text.len() ==> !is_backspace(#[trigger] text[i]),
        text.len() > 0 ==> normalize_char(text[0]) != ' ',
    ensures
        type_text(Seq::empty(), false, text).0 == lower_each(scan_text(text).words),
        type_text(Seq::empty(), false, text).1 == (scan_text(text).previous_space
            && scan_text(text).met_first),
        text.len() > 0 ==> scan_text(text).met_first,
    decreases text.len(),
{
    if text.len() > 0 {
        let prev = text.drop_last();
        assert forall|i: int| 0 <= i < prev.len() implies !is_backspace(#[trigger] prev[i]) by {
            assert(prev[i] == text[i]);
        }
        if prev.len() > 0 {
            assert(prev[0] == text[0]);
        }
        lemma_typing_the_song(prev);
        let st = scan_text(prev);
        let c = text.last();
        assert(!is_backspace(text[text.len() - 1]));
        if normalize_char(c) != ' ' {
            let sep = st.previous_space && st.met_first;
            let w = if sep {
                st.words.push(' ')
            } else {
                st.words
            };
            let t = type_text(Seq::empty(), false, prev).0;
            assert(w.push(c).drop_last() =~= w);
            assert(scan_text(text).words == w.push(c));
            assert(lower_each(w.push(c)) == lower_each(w) + char_lowercase(c));
            if sep {
                assert(st.words.push(' ').drop_last() =~= st.words);
                assert(lower_each(w) == lower_each(st.words) + seq![' ']);
                assert(t.push(' ') =~= t + seq![' ']);
            }
            assert(type_text(Seq::empty(), false, text) == type_char(
                t,
                type_text(Seq::empty(), false, prev).1,
                c,
            ));
        } else {
            assert(prev.len() > 0);
        }
    }
}

/// Typing a song text as it is written scores every character as correct
/// and reaches the end of the scored text, whenever lowercasing its words
/// at once gives what lowercasing them one character at a time gives (as
/// it does for ASCII text, or "héllo, world").
pub proof fn lemma_typing_the_song_scores_fully(text: Seq<char>, precision: nat)
    requires
        forall|i: int| 0 <= i < text.len() ==> !is_backspace(#[trigger] text[i]),
        text.len() > 0 ==> normalize_char(text[0]) != ' ',
        str_lowercase(scan_text(text).words) == lower_each(scan_text(text).words),
    ensures
        type_text(Seq::empty(), false, text).0 == score_text(text),
        correct_characters(score_text(text), type_text(Seq::empty(), false, text).0)
            == score_text(text).len(),
        match_position(score_text(text), type_text(Seq::empty(), false, text).0, precision)
            == score_text(text).len(),
{
    lemma_typing_the_song(text);
    lemma_exact_typing_is_correct(score_text(text));
    lemma_exact_typing_reaches_the_end(score_text(text), precision);
}

/// Once the typed text is exactly the first `k` characters of the scored
/// text, the position found is `k`, so `position_in_source_text` gives the
/// index in the song text of the next character to type (or the length of
/// the scored text when `k` is past the words).
pub proof fn lemma_exact_prefix_points_at_next_char(m: PlayingMusic, k: nat)
    requires
        k <= m.source_text().len(),
        m.typed() == m.source_text().take(k as int),
    ensures
        match_position(m.source_text(), m.typed(), typing_precision()) == k,
{
    lemma_exact_prefix_position(m.source_text(), k, typing_precision());
}

/// The typed text never holds punctuation, a line break or a backspace, as
/// long as the lowercase forms of the letters typed hold none.
pub proof fn lemma_typed_text_has_no_separator(typed: Seq<char>, previous_space: bool, c: char)
    requires
        forall|i: int|
            0 <= i < typed.len() ==> !is_ignored(#[trigger] typed[i]) && !is_backspace(typed[i]),
        writes_letter(c) ==> forall|j: int|
            0 <= j < char_lowercase(c).len() ==> !is_ignored(#[trigger] char_lowercase(c)[j])
                && !is_backspace(char_lowercase(c)[j]),
    ensures
        forall|i: int|
            0 <= i < type_char(typed, previous_space, c).0.len() ==> !is_ignored(
                #[trigger] type_char(typed, previous_space, c).0[i],
            ) && !is_backspace(type_char(typed, previous_space, c).0[i]),
{
    let r = type_char(typed, previous_space, c).0;
    if writes_letter(c) {
        let base = if previous_space {
            typed.push(' ')
        } else {
            typed
        };
        assert forall|i: int| 0 <= i < r.len() implies !is_ignored(#[trigger] r[i]) && !is_backspace(
            r[i],
        ) by {
            if i < base.len() {
                assert(r[i] == base[i]);
                if i < typed.len() {
                    assert(base[i] == typed[i]);
                }
            } else {
                assert(r[i] == char_lowercase(c)[i - base.len()]);
            }
        }
    } else if is_backspace(c) && !previous_space && typed.len() > 0 {
        assert forall|i: int| 0 <= i < r.len() implies !is_ignored(#[trigger] r[i]) && !is_backspace(
            r[i],
        ) by {
            assert(r[i] == typed[i]);
        }
    }
}

/// The song's words never hold a line break, a carriage return, or any of
/// the punctuation marks `. , ? ! ; :`.
pub proof fn lemma_words_hold_no_punctuation(text: Seq<char>)
    ensures
        forall|i: int|
            0 <= i < scan_text(text).words.len() ==> {
                let c = #[trigger] scan_text(text).words[i];
                !(c == '\n' || c == '.' || c == ',' || c == '?' || c == '!' || c == ';' || c == ':' || c == '\r')
            },
{
    lemma_scan_is_sound(text);
}

/// Typing the first `k` characters of the scored text exactly scores those
/// `k` characters as correct.
pub proof fn lemma_prefix_typing_scores_its_length(source: Seq<char>, k: nat)
    requires
        k <= source.len(),
    ensures
        correct_characters(source, source.take(k as int)) == k,
{
    crate::incremental_levenshtein::lemma_distance_to_own_prefix(source, k);
}

/// The lines of `lines` joined by line breaks.
pub open spec fn join_lines(lines: Seq<Seq<char>>) -> Seq<char>
    decreases lines.len(),
{
    if lines.len() == 0 {
        Seq::empty()
    } else if lines.len() == 1 {
        lines[0]
    } else {
        join_lines(lines.drop_last()) + seq!['\n'] + lines.last()
    }
}

/// The text read so far is the finished lines and the current one joined by
/// line breaks.
proof fn lemma_scan_rejoins(text: Seq<char>)
    ensures
        join_lines(scan_text(text).lines.push(scan_text(text).this_line)) == text,
    decreases text.len(),
{
    if text.len() > 0 {
        let prev = text.drop_last();
        lemma_scan_rejoins(prev);
        let st = scan_text(prev);
        let c = text.last();
        let ls = st.lines.push(st.this_line);
        assert(ls.drop_last() =~= st.lines);
        if c == '\n' {
            let ls2 = ls.push(Seq::<char>::empty());
            assert(ls2.drop_last() =~= ls);
            assert(join_lines(ls2) =~= join_lines(ls) + seq!['\n'] + Seq::<char>::empty());
            assert(text =~= prev.push('\n'));
        } else {
            let ls2 = st.lines.push(st.this_line.push(c));
            assert(ls2.drop_last() =~= st.lines);
            if st.lines.len() == 0 {
                assert(text =~= prev.push(c));
            } else {
                assert(join_lines(ls2) =~= join_lines(st.lines) + seq!['\n'] + st.this_line.push(c));
                assert(join_lines(ls) =~= join_lines(st.lines) + seq!['\n'] + st.this_line);
                assert(text =~= prev.push(c));
            }
        }
    }
}

/// The song's lines split the text at its line breaks and nowhere else:
/// joined by line breaks, they give back the text, less a final line break.
pub proof fn lemma_lines_rejoin_to_text(text: Seq<char>)
    ensures
        join_lines(song_lines(text)) == if text.len() > 0 && text.last() == '\n' {
            text.drop_last()
        } else {
            text
        },
        forall|k: int, i: int|
            0 <= k < song_lines(text).len() && 0 <= i < song_lines(text)[k].len()
                ==> #[trigger] song_lines(text)[k][i] != '\n',
{
    lemma_scan_rejoins(text);
    lemma_scan_is_sound(text);
    lemma_song_lines_unbroken(text);
    let st = scan_text(text);
    let ls = st.lines.push(st.this_line);
    assert(ls.drop_last() =~= st.lines);
    if st.this_line.len() != 0 {
        if text.len() > 0 {
            if st.lines.len() == 0 {
                assert(text == st.this_line);
            } else {
                assert(text =~= join_lines(st.lines) + seq!['\n'] + st.this_line);
            }
            assert(text.last() == st.this_line.last());
            assert(st.this_line[st.this_line.len() - 1] != '\n');
        }
    } else {
        if st.lines.len() > 0 {
            assert(text =~= join_lines(st.lines) + seq!['\n'] + st.this_line);
            assert(text.drop_last() =~= join_lines(st.lines));
        } else {
            assert(text.len() == 0);
        }
    }
}

/// The number of line breaks in `t`.
pub open spec fn count_line_breaks(t: Seq<char>) -> nat
    decreases t.len(),
{
    if t.len() == 0 {
        0
    } else {
        count_line_breaks(t.drop_last()) + if t.last() == '\n' {
            1nat
        } else {
            0nat
        }
    }
}

/// What the maps of a scan say of each character of the words: a letter
/// comes from the character of the text at its index, a separating space
/// shares the index of the letter after it, and its line is the number of
/// line breaks before that index.
pub open spec fn maps_point_back(text: Seq<char>, st: TextScan) -> bool {
    &&& st.line_count == count_line_breaks(text)
    &&& forall|i: int|
        0 <= i < st.words.len() ==> {
            &&& #[trigger] st.to_source[i] < text.len()
            &&& st.words[i] != ' ' ==> text[st.to_source[i] as int] == st.words[i]
            &&& st.words[i] == ' ' ==> i + 1 < st.words.len() && st.to_source[i + 1]
                == st.to_source[i]
            &&& st.to_lines[i] == count_line_breaks(text.take(st.to_source[i] as int))
        }
}

/// Each character of the song's words is mapped back to the character of the
/// song text it comes from (a separating space to the first letter of the
/// word after it), and to the line that character is on.
pub proof fn lemma_maps_point_back(text: Seq<char>)
    ensures
        maps_point_back(text, scan_text(text)),
    decreases text.len(),
{
    lemma_scan_is_sound(text);
    if text.len() > 0 {
        let prev = text.drop_last();
        lemma_maps_point_back(prev);
        lemma_scan_is_sound(prev);
        let n = prev.len();
        let c = text.last();
        let st = scan_text(prev);
        let st2 = scan_text(text);
        assert(text.take(n as int) =~= prev);
        assert forall|j: int| 0 <= j <= n implies #[trigger] text.take(j) == prev.take(j) by {
            assert(text.take(j) =~= prev.take(j));
        }
        assert forall|j: int| 0 <= j < n implies #[trigger] text[j] == prev[j] by {}
        assert forall|i: int| 0 <= i < st2.words.len() implies {
            &&& #[trigger] st2.to_source[i] < text.len()
            &&& st2.words[i] != ' ' ==> text[st2.to_source[i] as int] == st2.words[i]
            &&& st2.words[i] == ' ' ==> i + 1 < st2.words.len() && st2.to_source[i + 1]
                == st2.to_source[i]
            &&& st2.to_lines[i] == count_line_breaks(text.take(st2.to_source[i] as int))
        } by {
            if i < st.words.len() {
                assert(st2.words[i] == st.words[i]);
                assert(st2.to_source[i] == st.to_source[i]);
                assert(st2.to_lines[i] == st.to_lines[i]);
                if st.words[i] == ' ' {
                    assert(st2.to_source[i + 1] == st.to_source[i + 1]);
                }
            } else {
                assert(normalize_char(c) != ' ');
                assert(c != '\n');
                assert(st2.to_source[i] == n);
            }
        }
    }
}

} // verus!
