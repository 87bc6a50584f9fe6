use vstd::prelude::*;

use crate::text::{
    chars_to_string, copy_range, eq_ignore_case, matches_ignore_case, split_char, split_on, str_to_chars, views,
    word_ci,
};

verus! {

/// The colour class of a highlighted piece of tooltip text.
#[derive(Clone, Copy, PartialEq, Eq, Debug, Structural)]
pub enum Highlight {
    Fire,
    Earth,
    Air,
    Water,
    Money,
}

/// A piece of tooltip text, plain or highlighted.
pub struct Segment {
    pub text: String,
    pub color: Option<Highlight>,
}

/// What a segment holds, as plain values.
pub struct SegmentView {
    pub text: Seq<char>,
    pub color: Option<Highlight>,
}

pub open spec fn segment_view(s: Segment) -> SegmentView {
    SegmentView { text: s.text@, color: s.color }
}

pub open spec fn segments_view(v: Seq<Segment>) -> Seq<SegmentView> {
    v.map_values(|s: Segment| segment_view(s))
}

/// Plain text.
pub fn plain(text: String) -> (r: Segment)
    ensures
        r.text@ == text@,
        r.color is None,
{
    Segment { text, color: None }
}

/// Highlighted text.
pub fn colored(text: String, color: Highlight) -> (r: Segment)
    ensures
        r.text@ == text@,
        r.color == Some(color),
{
    Segment { text, color: Some(color) }
}

/// A string of one character.
fn one_char(c: char) -> (r: String)
    ensures
        r@ == seq![c],
{
    let mut v: Vec<char> = Vec::new();
    v.push(c);
    assert(v@ =~= seq![c]);
    chars_to_string(v.as_slice())
}

/// Appends a line: a line break first unless it is the first line.
pub fn push_line(segments: &mut Vec<Segment>, first: &mut bool, line: Vec<Segment>)
    ensures
        segments_view(final(segments)@) == segments_view(old(segments)@) + (if *old(first) {
            Seq::<SegmentView>::empty()
        } else {
            seq![SegmentView { text: seq!['\n'], color: None }]
        }) + segments_view(line@),
        !*final(first),
{
    let ghost start = segments@;
    if !*first {
        segments.push(plain(one_char('\n')));
    }
    let ghost mid = segments@;
    let mut line = line;
    let ghost lv = line@;
    segments.append(&mut line);
    proof {
        assert(segments_view(segments@) =~= segments_view(mid) + segments_view(lv));
        if *old(first) {
            assert(mid =~= start);
        } else {
            assert(segments_view(mid) =~= segments_view(start).push(
                SegmentView { text: seq!['\n'], color: None },
            ));
        }
        assert(segments_view(segments@) =~= segments_view(start) + (if *old(first) {
            Seq::<SegmentView>::empty()
        } else {
            seq![SegmentView { text: seq!['\n'], color: None }]
        }) + segments_view(lv));
    }
    *first = false;
}

/// Length of `w[..n]` without its trailing commas and full stops.
pub open spec fn core_len(w: Seq<char>, n: int) -> int
    decreases n,
{
    if n > 0 && (w[n - 1] == ',' || w[n - 1] == '.') {
        core_len(w, n - 1)
    } else {
        n
    }
}

/// The highlight of a word: the four elements (in any ASCII case), money
/// amounts starting with `$`, nothing otherwise.
pub open spec fn highlight_of(core: Seq<char>) -> Option<Highlight> {
    if matches_ignore_case(core, "fire"@) {
        Some(Highlight::Fire)
    } else if matches_ignore_case(core, "earth"@) {
        Some(Highlight::Earth)
    } else if matches_ignore_case(core, "air"@) {
        Some(Highlight::Air)
    } else if matches_ignore_case(core, "water"@) {
        Some(Highlight::Water)
    } else if core.len() > 0 && core[0] == '$' {
        Some(Highlight::Money)
    } else {
        None
    }
}

/// Whether a word spells "air" in any mix of upper and lower case.
pub open spec fn spells_air(w: Seq<char>) -> bool {
    &&& w.len() == 3
    &&& (w[0] == 'a' || w[0] == 'A')
    &&& (w[1] == 'i' || w[1] == 'I')
    &&& (w[2] == 'r' || w[2] == 'R')
}

/// Whether a word spells "fire" in any mix of upper and lower case.
pub open spec fn spells_fire(w: Seq<char>) -> bool {
    &&& w.len() == 4
    &&& (w[0] == 'f' || w[0] == 'F')
    &&& (w[1] == 'i' || w[1] == 'I')
    &&& (w[2] == 'r' || w[2] == 'R')
    &&& (w[3] == 'e' || w[3] == 'E')
}

/// Whether a word spells "earth" in any mix of upper and lower case.
pub open spec fn spells_earth(w: Seq<char>) -> bool {
    &&& w.len() == 5
    &&& (w[0] == 'e' || w[0] == 'E')
    &&& (w[1] == 'a' || w[1] == 'A')
    &&& (w[2] == 'r' || w[2] == 'R')
    &&& (w[3] == 't' || w[3] == 'T')
    &&& (w[4] == 'h' || w[4] == 'H')
}

/// Whether a word spells "water" in any mix of upper and lower case.
pub open spec fn spells_water(w: Seq<char>) -> bool {
    &&& w.len() == 5
    &&& (w[0] == 'w' || w[0] == 'W')
    &&& (w[1] == 'a' || w[1] == 'A')
    &&& (w[2] == 't' || w[2] == 'T')
    &&& (w[3] == 'e' || w[3] == 'E')
    &&& (w[4] == 'r' || w[4] == 'R')
}

/// A letter matches its lowercase form ignoring case exactly when it is
/// that letter in lower or upper case.
proof fn lemma_letter_ci(c: char, lower: char, upper: char)
    requires
        (upper as u32) + 32 == (lower as u32),
    ensures
        eq_ignore_case(c, lower) <==> (c == lower || c == upper),
{
}

proof fn lemma_word_ci(core: Seq<char>, word: Seq<char>, upper: Seq<char>)
    requires
        word.len() == upper.len(),
        forall|k: int| 0 <= k < word.len() ==> (upper[k] as u32) + 32 == (word[k] as u32),
    ensures
        matches_ignore_case(core, word) <==> (core.len() == word.len() && forall|k: int|
            0 <= k < word.len() ==> core[k] == word[k] || core[k] == upper[k]),
{
    if core.len() == word.len() {
        assert forall|k: int| 0 <= k < word.len() implies (eq_ignore_case(core[k], word[k]) <==> (
        core[k] == word[k] || core[k] == upper[k])) by {
            lemma_letter_ci(core[k], word[k], upper[k]);
        }
    }
}

/// Each element word, in any case, gets its own element's colour, a word
/// starting with `$` gets the money colour, and any other word stays plain.
pub proof fn lemma_highlight_words(core: Seq<char>)
    ensures
        spells_fire(core) ==> highlight_of(core) == Some(Highlight::Fire),
        spells_earth(core) ==> highlight_of(core) == Some(Highlight::Earth),
        spells_air(core) ==> highlight_of(core) == Some(Highlight::Air),
        spells_water(core) ==> highlight_of(core) == Some(Highlight::Water),
        core.len() > 0 && core[0] == '$' ==> highlight_of(core) == Some(Highlight::Money),
        !spells_fire(core) && !spells_earth(core) && !spells_air(core) && !spells_water(core)
            && !(core.len() > 0 && core[0] == '$') ==> highlight_of(core) is None,
{
    reveal_strlit("fire");
    reveal_strlit("earth");
    reveal_strlit("air");
    reveal_strlit("water");
    lemma_word_ci(core, "fire"@, seq!['F', 'I', 'R', 'E']);
    lemma_word_ci(core, "earth"@, seq!['E', 'A', 'R', 'T', 'H']);
    lemma_word_ci(core, "air"@, seq!['A', 'I', 'R']);
    lemma_word_ci(core, "water"@, seq!['W', 'A', 'T', 'E', 'R']);
    assert(spells_fire(core) <==> matches_ignore_case(core, "fire"@)) by {
        let w = "fire"@;
        let u = seq!['F', 'I', 'R', 'E'];
        if core.len() == 4 {
            assert(core[0] == core[0]);
            assert(core[1] == core[1]);
            assert(core[2] == core[2]);
            assert(core[3] == core[3]);
            if spells_fire(core) {
                assert forall|k: int| 0 <= k < w.len() implies core[k] == w[k] || core[k] == u[k] by {
                    assert(k == 0 || k == 1 || k == 2 || k == 3);
                }
            }
        }
    }
    assert(spells_earth(core) <==> matches_ignore_case(core, "earth"@)) by {
        let w = "earth"@;
        let u = seq!['E', 'A', 'R', 'T', 'H'];
        if core.len() == 5 {
            assert(core[0] == core[0]);
            assert(core[1] == core[1]);
            assert(core[2] == core[2]);
            assert(core[3] == core[3]);
            assert(core[4] == core[4]);
            if spells_earth(core) {
                assert forall|k: int| 0 <= k < w.len() implies core[k] == w[k] || core[k] == u[k] by {
                    assert(k == 0 || k == 1 || k == 2 || k == 3 || k == 4);
                }
            }
        }
    }
    assert(spells_air(core) <==> matches_ignore_case(core, "air"@)) by {
        let w = "air"@;
        let u = seq!['A', 'I', 'R'];
        if core.len() == 3 {
            assert(core[0] == core[0]);
            assert(core[1] == core[1]);
            assert(core[2] == core[2]);
            if spells_air(core) {
                assert forall|k: int| 0 <= k < w.len() implies core[k] == w[k] || core[k] == u[k] by {
                    assert(k == 0 || k == 1 || k == 2);
                }
            }
        }
    }
    assert(spells_water(core) <==> matches_ignore_case(core, "water"@)) by {
        let w = "water"@;
        let u = seq!['W', 'A', 'T', 'E', 'R'];
        if core.len() == 5 {
            assert(core[0] == core[0]);
            assert(core[1] == core[1]);
            assert(core[2] == core[2]);
            assert(core[3] == core[3]);
            assert(core[4] == core[4]);
            if spells_water(core) {
                assert forall|k: int| 0 <= k < w.len() implies core[k] == w[k] || core[k] == u[k] by {
                    assert(k == 0 || k == 1 || k == 2 || k == 3 || k == 4);
                }
            }
        }
    }
}

/// The segments of one word: the word without trailing punctuation, with
/// its highlight, then the punctuation as plain text.
pub open spec fn word_segments(w: Seq<char>) -> Seq<SegmentView> {
    let k = core_len(w, w.len() as int);
    let core = w.take(k);
    let suffix = w.skip(k);
    seq![SegmentView { text: core, color: highlight_of(core) }] + if suffix.len() > 0 {
        seq![SegmentView { text: suffix, color: None }]
    } else {
        Seq::empty()
    }
}

/// The segments of `words[..n]`, a plain space between two words.
pub open spec fn words_segments(words: Seq<Seq<char>>, n: int) -> Seq<SegmentView>
    decreases n,
{
    if n <= 0 {
        Seq::empty()
    } else {
        words_segments(words, n - 1) + (if n > 1 {
            seq![SegmentView { text: seq![' '], color: None }]
        } else {
            Seq::empty()
        }) + word_segments(words[n - 1])
    }
}

/// The segments `highlight_description` gives for `text`.
pub open spec fn highlighted(text: Seq<char>) -> Seq<SegmentView> {
    let words = split_on(text, ' ');
    words_segments(words, words.len() as int)
}

proof fn lemma_core_len(w: Seq<char>, n: int)
    requires
        0 <= n <= w.len(),
    ensures
        0 <= core_len(w, n) <= n,
        forall|j: int| core_len(w, n) <= j < n ==> w[j] == ',' || w[j] == '.',
        core_len(w, n) > 0 ==> !(w[core_len(w, n) - 1] == ',' || w[core_len(w, n) - 1] == '.'),
    decreases n,
{
    if n > 0 && (w[n - 1] == ',' || w[n - 1] == '.') {
        lemma_core_len(w, n - 1);
    }
}

fn highlight_exec(core: &[char]) -> (r: Option<Highlight>)
    ensures
        r == highlight_of(core@),
{
    let fire = str_to_chars("fire");
    let earth = str_to_chars("earth");
    let air = str_to_chars("air");
    let water = str_to_chars("water");
    proof {
        reveal_strlit("fire");
        reveal_strlit("earth");
        reveal_strlit("air");
        reveal_strlit("water");
    }
    if word_ci(core, fire.as_slice()) {
        Some(Highlight::Fire)
    } else if word_ci(core, earth.as_slice()) {
        Some(Highlight::Earth)
    } else if word_ci(core, air.as_slice()) {
        Some(Highlight::Air)
    } else if word_ci(core, water.as_slice()) {
        Some(Highlight::Water)
    } else if core.len() > 0 && core[0] == '$' {
        Some(Highlight::Money)
    } else {
        None
    }
}

/// Colours the element words and `$` amounts of a description, keeping
/// the words' trailing punctuation plain.
pub fn highlight_description(text: &str) -> (r: Vec<Segment>)
    ensures
        segments_view(r@) == highlighted(text@),
{
    let chars = str_to_chars(text);
    let words = split_char(chars.as_slice(), ' ');
    let ghost wv = views(words@);
    let mut segments: Vec<Segment> = Vec::new();
    let mut i: usize = 0;
    while i < words.len()
        invariant
            i <= words@.len(),
            wv == views(words@),
            wv == split_on(text@, ' '),
            segments_view(segments@) == words_segments(wv, i as int),
        decreases words@.len() - i,
    {
        let ghost before = segments_view(segments@);
        let word = &words[i];
        assert(wv[i as int] == word@);
        if i > 0 {
            segments.push(plain(one_char(' ')));
        }
        let mut k: usize = word.len();
        while k > 0 && (word[k - 1] == ',' || word[k - 1] == '.')
            invariant
                k <= word@.len(),
                core_len(word@, word@.len() as int) == core_len(word@, k as int),
            decreases k,
        {
            k = k - 1;
        }
        let core = copy_range(word.as_slice(), 0, k);
        let suffix = copy_range(word.as_slice(), k, word.len());
        assert(core@ =~= word@.take(k as int));
        assert(suffix@ =~= word@.skip(k as int));
        let color = highlight_exec(core.as_slice());
        segments.push(Segment { text: chars_to_string(core.as_slice()), color });
        if suffix.len() > 0 {
            segments.push(plain(chars_to_string(suffix.as_slice())));
        }
        proof {
            let sep = if i > 0 {
                seq![SegmentView { text: seq![' '], color: None }]
            } else {
                Seq::<SegmentView>::empty()
            };
            assert(segments_view(segments@) =~= before + sep + word_segments(wv[i as int]));
        }
        i = i + 1;
    }
    segments
}

} // verus!
