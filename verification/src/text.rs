use vstd::prelude::*;

verus! {

/// Characters with the Unicode `White_Space` property, the set that
/// `char::is_whitespace` (and so `str::trim` and `str::split_whitespace`) uses.
pub open spec fn is_ws(c: char) -> bool {
    let u = c as u32;
    ||| u == 0x20 || u == 0x09 || u == 0x0A || u == 0x0B || u == 0x0C || u == 0x0D
    ||| u == 0x85 || u == 0xA0 || u == 0x1680
    ||| (0x2000 <= u && u <= 0x200A)
    ||| u == 0x2028 || u == 0x2029 || u == 0x202F || u == 0x205F || u == 0x3000
}

pub fn is_whitespace(c: char) -> (r: bool)
    ensures
        r == is_ws(c),
{
    let u = c as u32;
    u == 0x20 || u == 0x09 || u == 0x0A || u == 0x0B || u == 0x0C || u == 0x0D || u == 0x85 || u
        == 0xA0 || u == 0x1680 || (0x2000 <= u && u <= 0x200A) || u == 0x2028 || u == 0x2029 || u
        == 0x202F || u == 0x205F || u == 0x3000
}

/// The characters of a string slice, in order.
pub fn str_to_chars(s: &str) -> (r: Vec<char>)
    ensures
        r@ == s@,
{
    let mut r: Vec<char> = Vec::new();
    for c in it: s.chars()
        invariant
            r@ == it.seq().take(it.index() as int),
            it.seq() == s@,
    {
        r.push(c);
    }
    r
}


/// Appends one character to a `String` (std's `String::push`): the string's
/// characters afterwards are the old ones followed by `c`.
#[verifier::external_body]
fn string_push(s: &mut String, c: char)
    ensures
        final(s)@ == old(s)@.push(c),
{
    s.push(c);
}

/// A `String` holding exactly the given characters.
pub fn chars_to_string(cs: &[char]) -> (r: String)
    ensures
        r@ == cs@,
{
    let mut r = String::new();
    let mut i: usize = 0;
    while i < cs.len()
        invariant
            i <= cs@.len(),
            r@ == cs@.take(i as int),
        decreases cs@.len() - i,
    {
        string_push(&mut r, cs[i]);
        assert(cs@.take(i as int).push(cs@[i as int]) =~= cs@.take(i + 1));
        i = i + 1;
    }
    assert(cs@.take(cs@.len() as int) =~= cs@);
    r
}

/// The characters of a `String`.
pub fn string_to_chars(s: &String) -> (r: Vec<char>)
    ensures
        r@ == s@,
{
    str_to_chars(s.as_str())
}

/// Element-wise equality of two character slices.
pub fn chars_eq(a: &[char], b: &[char]) -> (r: bool)
    ensures
        r == (a@ == b@),
{
    if a.len() != b.len() {
        return false;
    }
    let mut i: usize = 0;
    while i < a.len()
        invariant
            a@.len() == b@.len(),
            i <= a@.len(),
            forall|k: int| 0 <= k < i ==> a@[k] == b@[k],
        decreases a@.len() - i,
    {
        if a[i] != b[i] {
            return false;
        }
        i = i + 1;
    }
    assert(a@ =~= b@);
    true
}


/// The contents of a list of character vectors, as sequences.
pub open spec fn views(v: Seq<Vec<char>>) -> Seq<Seq<char>> {
    v.map_values(|x: Vec<char>| x@)
}

pub proof fn lemma_views_push(v: Seq<Vec<char>>, x: Vec<char>)
    ensures
        views(v.push(x)) == views(v).push(x@),
{
    assert(views(v.push(x)) =~= views(v).push(x@));
}

/// A copy of `s[a..b]`.
pub fn copy_range(s: &[char], a: usize, b: usize) -> (r: Vec<char>)
    requires
        a <= b <= s@.len(),
    ensures
        r@ == s@.subrange(a as int, b as int),
{
    let mut r: Vec<char> = Vec::new();
    let mut i = a;
    while i < b
        invariant
            a <= i <= b <= s@.len(),
            r@ == s@.subrange(a as int, i as int),
        decreases b - i,
    {
        r.push(s[i]);
        assert(s@.subrange(a as int, i as int).push(s@[i as int]) =~= s@.subrange(
            a as int,
            i + 1,
        ));
        i = i + 1;
    }
    r
}

/// Index of the first non-whitespace character at or after `i`
/// (`s.len()` when there is none).
pub open spec fn skip_ws(s: Seq<char>, i: int) -> int
    decreases s.len() - i,
{
    if 0 <= i < s.len() && is_ws(s[i]) {
        skip_ws(s, i + 1)
    } else {
        i
    }
}

/// Walking back from `j`, the position just after the last non-whitespace
/// character, never going below `lo`.
pub open spec fn back_ws(s: Seq<char>, lo: int, j: int) -> int
    decreases j - lo,
{
    if lo < j && j <= s.len() && is_ws(s[j - 1]) {
        back_ws(s, lo, j - 1)
    } else {
        j
    }
}

/// `str::trim`: the text without leading and trailing whitespace.
pub open spec fn trim(s: Seq<char>) -> Seq<char> {
    let a = skip_ws(s, 0);
    s.subrange(a, back_ws(s, a, s.len() as int))
}

pub proof fn lemma_skip_ws_bounds(s: Seq<char>, i: int)
    requires
        0 <= i <= s.len(),
    ensures
        i <= skip_ws(s, i) <= s.len(),
        skip_ws(s, i) < s.len() ==> !is_ws(s[skip_ws(s, i)]),
        forall|k: int| i <= k < skip_ws(s, i) ==> is_ws(s[k]),
    decreases s.len() - i,
{
    if i < s.len() && is_ws(s[i]) {
        lemma_skip_ws_bounds(s, i + 1);
    }
}

pub proof fn lemma_back_ws_bounds(s: Seq<char>, lo: int, j: int)
    requires
        0 <= lo <= j <= s.len(),
    ensures
        lo <= back_ws(s, lo, j) <= j,
        back_ws(s, lo, j) > lo ==> !is_ws(s[back_ws(s, lo, j) - 1]),
        forall|k: int| back_ws(s, lo, j) <= k < j ==> is_ws(s[k]),
    decreases j - lo,
{
    if lo < j && is_ws(s[j - 1]) {
        lemma_back_ws_bounds(s, lo, j - 1);
    }
}

/// Bounds `(a, b)` with `s[a..b] == trim(s)`.
pub fn trim_bounds(s: &[char]) -> (r: (usize, usize))
    ensures
        r.0 <= r.1 <= s@.len(),
        r.0 == skip_ws(s@, 0),
        r.1 == back_ws(s@, r.0 as int, s@.len() as int),
        s@.subrange(r.0 as int, r.1 as int) == trim(s@),
{
    let mut a: usize = 0;
    while a < s.len() && is_whitespace(s[a])
        invariant
            a <= s@.len(),
            skip_ws(s@, 0) == skip_ws(s@, a as int),
        decreases s@.len() - a,
    {
        a = a + 1;
    }
    let mut b: usize = s.len();
    while b > a && is_whitespace(s[b - 1])
        invariant
            a <= b <= s@.len(),
            back_ws(s@, a as int, s@.len() as int) == back_ws(s@, a as int, b as int),
        decreases b - a,
    {
        b = b - 1;
    }
    (a, b)
}

/// `str::trim`, on characters.
pub fn trim_chars(s: &[char]) -> (r: Vec<char>)
    ensures
        r@ == trim(s@),
{
    let (a, b) = trim_bounds(s);
    copy_range(s, a, b)
}

/// The whitespace-separated tokens of `s[i..]`, where `start` is where the
/// token being read began (or `-1` when between tokens).
pub open spec fn ws_tokens_from(s: Seq<char>, i: int, start: int) -> Seq<Seq<char>>
    decreases s.len() - i,
{
    if i >= s.len() {
        if start >= 0 {
            seq![s.subrange(start, s.len() as int)]
        } else {
            Seq::empty()
        }
    } else if is_ws(s[i]) {
        (if start >= 0 {
            seq![s.subrange(start, i)]
        } else {
            Seq::empty()
        }) + ws_tokens_from(s, i + 1, -1)
    } else {
        ws_tokens_from(s, i + 1, if start >= 0 { start } else { i })
    }
}

/// `str::split_whitespace`: the maximal runs of non-whitespace characters.
pub open spec fn split_ws(s: Seq<char>) -> Seq<Seq<char>> {
    ws_tokens_from(s, 0, -1)
}

/// `str::split_whitespace`, on characters.
pub fn split_whitespace(s: &[char]) -> (r: Vec<Vec<char>>)
    ensures
        views(r@) == split_ws(s@),
{
    let mut out: Vec<Vec<char>> = Vec::new();
    let mut i: usize = 0;
    let mut start: usize = 0;
    let mut in_token = false;
    while i < s.len()
        invariant
            i <= s@.len(),
            in_token ==> start < i,
            views(out@) + ws_tokens_from(s@, i as int, if in_token { start as int } else { -1 })
                == split_ws(s@),
        decreases s@.len() - i,
    {
        let ghost st: int = if in_token { start as int } else { -1 };
        if is_whitespace(s[i]) {
            if in_token {
                let tok = copy_range(s, start, i);
                proof {
                    lemma_views_push(out@, tok);
                    assert(seq![tok@] + ws_tokens_from(s@, i + 1, -1) =~= seq![tok@].add(
                        ws_tokens_from(s@, i + 1, -1),
                    ));
                    assert(views(out@) + (seq![tok@] + ws_tokens_from(s@, i + 1, -1))
                        =~= views(out@).push(tok@) + ws_tokens_from(s@, i + 1, -1));
                }
                out.push(tok);
            } else {
                assert(views(out@) + (Seq::<Seq<char>>::empty() + ws_tokens_from(
                    s@,
                    i + 1,
                    -1,
                )) =~= views(out@) + ws_tokens_from(s@, i + 1, -1));
            }
            in_token = false;
        } else {
            if !in_token {
                start = i;
                in_token = true;
            }
        }
        i = i + 1;
    }
    if in_token {
        let tok = copy_range(s, start, s.len());
        proof {
            lemma_views_push(out@, tok);
            assert(views(out@) + seq![tok@] =~= views(out@).push(tok@));
        }
        out.push(tok);
    } else {
        assert(views(out@) + Seq::<Seq<char>>::empty() =~= views(out@));
    }
    out
}


/// The pieces of `s[i..]` between occurrences of `c`, where the current
/// piece began at `start`.
pub open spec fn split_from(s: Seq<char>, c: char, i: int, start: int) -> Seq<Seq<char>>
    decreases s.len() - i,
{
    if i >= s.len() {
        seq![s.subrange(start, s.len() as int)]
    } else if s[i] == c {
        seq![s.subrange(start, i)] + split_from(s, c, i + 1, i + 1)
    } else {
        split_from(s, c, i + 1, start)
    }
}

/// `str::split(c)`: the pieces between occurrences of `c` (one piece when
/// `c` does not occur, an empty piece for an empty text).
pub open spec fn split_on(s: Seq<char>, c: char) -> Seq<Seq<char>> {
    split_from(s, c, 0, 0)
}

/// `str::split(c)`, on characters.
pub fn split_char(s: &[char], c: char) -> (r: Vec<Vec<char>>)
    ensures
        views(r@) == split_on(s@, c),
        r@.len() >= 1,
{
    let mut out: Vec<Vec<char>> = Vec::new();
    let mut i: usize = 0;
    let mut start: usize = 0;
    while i < s.len()
        invariant
            start <= i <= s@.len(),
            views(out@) + split_from(s@, c, i as int, start as int) == split_on(s@, c),
        decreases s@.len() - i,
    {
        if s[i] == c {
            let tok = copy_range(s, start, i);
            proof {
                lemma_views_push(out@, tok);
                assert(views(out@) + (seq![tok@] + split_from(s@, c, i + 1, i + 1))
                    =~= views(out@).push(tok@) + split_from(s@, c, i + 1, i + 1));
            }
            out.push(tok);
            start = i + 1;
        }
        i = i + 1;
    }
    let tok = copy_range(s, start, s.len());
    proof {
        lemma_views_push(out@, tok);
        assert(views(out@) + seq![tok@] =~= views(out@).push(tok@));
    }
    out.push(tok);
    out
}

/// The first index at or after `i` holding `c` (`s.len()` when none does).
pub open spec fn find_from(s: Seq<char>, c: char, i: int) -> int
    decreases s.len() - i,
{
    if i >= s.len() {
        s.len() as int
    } else if s[i] == c {
        i
    } else {
        find_from(s, c, i + 1)
    }
}

pub proof fn lemma_find_from(s: Seq<char>, c: char, i: int)
    requires
        0 <= i <= s.len(),
    ensures
        i <= find_from(s, c, i) <= s.len(),
        find_from(s, c, i) < s.len() ==> s[find_from(s, c, i)] == c,
        forall|k: int| i <= k < find_from(s, c, i) ==> s[k] != c,
    decreases s.len() - i,
{
    if i < s.len() && s[i] != c {
        lemma_find_from(s, c, i + 1);
    }
}

/// `str::split_once(c)`: the text before and after the first `c`.
pub open spec fn split_once(s: Seq<char>, c: char) -> Option<(Seq<char>, Seq<char>)> {
    let k = find_from(s, c, 0);
    if k < s.len() {
        Some((s.take(k), s.skip(k + 1)))
    } else {
        None
    }
}

/// `str::split_once(c)`, on characters.
pub fn split_once_char(s: &[char], c: char) -> (r: Option<(Vec<char>, Vec<char>)>)
    ensures
        match (r, split_once(s@, c)) {
            (Some((a, b)), Some((x, y))) => a@ == x && b@ == y,
            (None, None) => true,
            _ => false,
        },
{
    let mut i: usize = 0;
    while i < s.len()
        invariant
            i <= s@.len(),
            find_from(s@, c, 0) == find_from(s@, c, i as int),
        decreases s@.len() - i,
    {
        if s[i] == c {
            let a = copy_range(s, 0, i);
            let b = copy_range(s, i + 1, s.len());
            return Some((a, b));
        }
        i = i + 1;
    }
    None
}


pub open spec fn is_digit(c: char) -> bool {
    48 <= (c as u32) <= 57
}

pub open spec fn digit_val(c: char) -> int {
    (c as u32) - 48
}

pub open spec fn all_digits(s: Seq<char>) -> bool {
    forall|k: int| 0 <= k < s.len() ==> is_digit(s[k])
}

/// The value of a string of decimal digits.
pub open spec fn digits_value(s: Seq<char>) -> int
    decreases s.len(),
{
    if s.len() == 0 {
        0
    } else {
        digits_value(s.drop_last()) * 10 + digit_val(s.last())
    }
}

pub proof fn lemma_digits_value_nonneg(s: Seq<char>)
    requires
        all_digits(s),
    ensures
        digits_value(s) >= 0,
    decreases s.len(),
{
    if s.len() > 0 {
        lemma_digits_value_nonneg(s.drop_last());
    }
}

/// The grammar of the unsigned `from_str` impls (`u8`, `u32`): an optional
/// `+` followed by one or more ASCII digits; the result is the value read.
pub open spec fn parse_unsigned(s: Seq<char>) -> Option<int> {
    let d = if s.len() > 0 && s[0] == '+' {
        s.drop_first()
    } else {
        s
    };
    if d.len() > 0 && all_digits(d) {
        Some(digits_value(d))
    } else {
        None
    }
}

/// The grammar of the signed `from_str` impls (`i32`): an optional `+` or
/// `-` followed by one or more ASCII digits.
pub open spec fn parse_signed(s: Seq<char>) -> Option<int> {
    if s.len() > 0 && s[0] == '-' {
        let d = s.drop_first();
        if d.len() > 0 && all_digits(d) {
            Some(-digits_value(d))
        } else {
            None
        }
    } else {
        parse_unsigned(s)
    }
}

/// `str::parse::<u32>`.
pub open spec fn parse_u32_spec(s: Seq<char>) -> Option<u32> {
    match parse_unsigned(s) {
        Some(v) => if v <= u32::MAX {
            Some(v as u32)
        } else {
            None
        },
        None => None,
    }
}

/// `str::parse::<u8>`.
pub open spec fn parse_u8_spec(s: Seq<char>) -> Option<u8> {
    match parse_unsigned(s) {
        Some(v) => if v <= u8::MAX {
            Some(v as u8)
        } else {
            None
        },
        None => None,
    }
}

/// `str::parse::<i32>`.
pub open spec fn parse_i32_spec(s: Seq<char>) -> Option<i32> {
    match parse_signed(s) {
        Some(v) => if i32::MIN <= v <= i32::MAX {
            Some(v as i32)
        } else {
            None
        },
        None => None,
    }
}

/// Reads the digits `s[start..]`: `Some(value)` when there is at least one,
/// all are ASCII digits and the value is at most `bound`.
fn read_digits(s: &[char], start: usize, bound: u64) -> (r: Option<u64>)
    requires
        start <= s@.len(),
        bound <= 0x1_0000_0000,
    ensures
        ({
            let d = s@.skip(start as int);
            match r {
                Some(v) => d.len() > 0 && all_digits(d) && digits_value(d) == v && v <= bound,
                None => !(d.len() > 0 && all_digits(d) && digits_value(d) <= bound),
            }
        }),
{
    if start == s.len() {
        return None;
    }
    let mut acc: u64 = 0;
    let mut i = start;
    while i < s.len()
        invariant
            start <= i <= s@.len(),
            all_digits(s@.subrange(start as int, i as int)),
            digits_value(s@.subrange(start as int, i as int)) <= bound ==> acc == digits_value(
                s@.subrange(start as int, i as int),
            ),
            digits_value(s@.subrange(start as int, i as int)) > bound ==> acc > bound,
            bound <= 0x1_0000_0000,
        decreases s@.len() - i,
    {
        let c = s[i];
        let u = c as u32;
        if !(48 <= u && u <= 57) {
            assert(!all_digits(s@.skip(start as int))) by {
                assert(s@.skip(start as int)[i - start] == c);
            }
            return None;
        }
        let ghost pre = s@.subrange(start as int, i as int);
        let ghost next = s@.subrange(start as int, i + 1);
        proof {
            assert(next.drop_last() =~= pre);
            assert(next.last() == c);
            lemma_digits_value_nonneg(pre);
            assert(all_digits(next));
        }
        if acc <= bound {
            acc = acc * 10 + (u - 48) as u64;
        }
        i = i + 1;
    }
    assert(s@.subrange(start as int, s@.len() as int) =~= s@.skip(start as int));
    if acc > bound {
        None
    } else {
        Some(acc)
    }
}

/// `str::parse::<u32>`, on characters.
pub fn parse_u32(s: &[char]) -> (r: Option<u32>)
    ensures
        r == parse_u32_spec(s@),
{
    let start: usize = if s.len() > 0 && s[0] == '+' { 1 } else { 0 };
    assert(start == 1 ==> s@.skip(1) =~= s@.drop_first());
    assert(s@.skip(0) =~= s@);
    match read_digits(s, start, 0xFFFF_FFFF) {
        Some(v) => Some(v as u32),
        None => None,
    }
}

/// `str::parse::<u8>`, on characters.
pub fn parse_u8(s: &[char]) -> (r: Option<u8>)
    ensures
        r == parse_u8_spec(s@),
{
    let start: usize = if s.len() > 0 && s[0] == '+' { 1 } else { 0 };
    assert(start == 1 ==> s@.skip(1) =~= s@.drop_first());
    assert(s@.skip(0) =~= s@);
    match read_digits(s, start, 0xFF) {
        Some(v) => Some(v as u8),
        None => None,
    }
}

/// `str::parse::<i32>`, on characters.
pub fn parse_i32(s: &[char]) -> (r: Option<i32>)
    ensures
        r == parse_i32_spec(s@),
{
    if s.len() > 0 && s[0] == '-' {
        assert(s@.skip(1) =~= s@.drop_first());
        match read_digits(s, 1, 0x8000_0000) {
            Some(v) => {
                let n: i64 = 0i64 - v as i64;
                Some(n as i32)
            },
            None => None,
        }
    } else {
        let start: usize = if s.len() > 0 && s[0] == '+' { 1 } else { 0 };
        assert(start == 1 ==> s@.skip(1) =~= s@.drop_first());
        assert(s@.skip(0) =~= s@);
        match read_digits(s, start, 0x7FFF_FFFF) {
            Some(v) => Some(v as i32),
            None => None,
        }
    }
}


/// `c` is the lowercase ASCII letter `lower` or its uppercase form.
pub open spec fn eq_ignore_case(c: char, lower: char) -> bool {
    c == lower || (c as u32) + 32 == (lower as u32)
}

/// `s` spells `word` (a lowercase ASCII word) ignoring ASCII case.
pub open spec fn matches_ignore_case(s: Seq<char>, word: Seq<char>) -> bool {
    s.len() == word.len() && forall|k: int| 0 <= k < s.len() ==> eq_ignore_case(s[k], word[k])
}

/// Digits with at most one `.` among them and at least one digit: the
/// `Digit+ | Digit+ '.' Digit* | Digit* '.' Digit+` of the float grammar.
pub open spec fn valid_mantissa(m: Seq<char>) -> bool {
    &&& forall|k: int| 0 <= k < m.len() ==> is_digit(m[k]) || m[k] == '.'
    &&& forall|j: int, k: int| 0 <= j < k < m.len() && m[j] == '.' ==> m[k] != '.'
    &&& exists|k: int| 0 <= k < m.len() && is_digit(m[k])
}

/// `Exp ::= 'e' Sign? Digit+`, with `e` in either case.
pub open spec fn valid_exponent(e: Seq<char>) -> bool {
    &&& e.len() >= 2
    &&& eq_ignore_case(e[0], 'e')
    &&& {
        let r = e.drop_first();
        let d = if r[0] == '+' || r[0] == '-' {
            r.drop_first()
        } else {
            r
        };
        d.len() > 0 && all_digits(d)
    }
}

/// Index of the first `e` or `E` at or after `i` (`s.len()` when none).
pub open spec fn find_exp(s: Seq<char>, i: int) -> int
    decreases s.len() - i,
{
    if i >= s.len() {
        s.len() as int
    } else if eq_ignore_case(s[i], 'e') {
        i
    } else {
        find_exp(s, i + 1)
    }
}

pub proof fn lemma_find_exp_bounds(s: Seq<char>, i: int)
    requires
        0 <= i <= s.len(),
    ensures
        i <= find_exp(s, i) <= s.len(),
        find_exp(s, i) < s.len() ==> eq_ignore_case(s[find_exp(s, i)], 'e'),
    decreases s.len() - i,
{
    if i < s.len() && !eq_ignore_case(s[i], 'e') {
        lemma_find_exp_bounds(s, i + 1);
    }
}

/// The texts that `f32::from_str` accepts, per its documented grammar:
/// `Sign? ('inf' | 'infinity' | 'nan' | Number)`, case-insensitively, with
/// `Number ::= (Digit+ | Digit+ '.' Digit* | Digit* '.' Digit+) Exp?`.
pub open spec fn is_float_literal(s: Seq<char>) -> bool {
    let t = if s.len() > 0 && (s[0] == '+' || s[0] == '-') {
        s.drop_first()
    } else {
        s
    };
    let k = find_exp(t, 0);
    ||| matches_ignore_case(t, seq!['i', 'n', 'f'])
    ||| matches_ignore_case(t, seq!['i', 'n', 'f', 'i', 'n', 'i', 't', 'y'])
    ||| matches_ignore_case(t, seq!['n', 'a', 'n'])
    ||| valid_mantissa(t.take(k)) && (k == t.len() || valid_exponent(t.skip(k)))
}

fn is_ascii_letter_ci(c: char, lower: char) -> (r: bool)
    requires
        97 <= (lower as u32) <= 122,
    ensures
        r == eq_ignore_case(c, lower),
{
    c == lower || (c as u32) + 32 == (lower as u32)
}

/// `t` spells the lowercase ASCII word `word`, ignoring ASCII case.
pub fn word_ci(t: &[char], word: &[char]) -> (r: bool)
    requires
        forall|k: int| 0 <= k < word@.len() ==> 97 <= (#[trigger] word@[k]) as u32 <= 122,
    ensures
        r == matches_ignore_case(t@, word@),
{
    if t.len() != word.len() {
        return false;
    }
    let mut i: usize = 0;
    while i < word.len()
        invariant
            t@.len() == word@.len(),
            i <= word@.len(),
            forall|k: int| 0 <= k < word@.len() ==> 97 <= (#[trigger] word@[k]) as u32 <= 122,
            forall|k: int| 0 <= k < i ==> eq_ignore_case(t@[k], word@[k]),
        decreases word@.len() - i,
    {
        if !is_ascii_letter_ci(t[i], word[i]) {
            return false;
        }
        i = i + 1;
    }
    true
}

fn is_digit_char(c: char) -> (r: bool)
    ensures
        r == is_digit(c),
{
    let u = c as u32;
    48 <= u && u <= 57
}

fn find_exp_index(t: &[char]) -> (k: usize)
    ensures
        k == find_exp(t@, 0),
        k <= t@.len(),
        forall|q: int| 0 <= q < k ==> !eq_ignore_case(#[trigger] t@[q], 'e'),
{
    let mut i: usize = 0;
    while i < t.len() && !is_ascii_letter_ci(t[i], 'e')
        invariant
            i <= t@.len(),
            find_exp(t@, 0) == find_exp(t@, i as int),
            forall|q: int| 0 <= q < i ==> !eq_ignore_case(#[trigger] t@[q], 'e'),
        decreases t@.len() - i,
    {
        i = i + 1;
    }
    i
}

fn mantissa_ok(t: &[char], k: usize) -> (r: bool)
    requires
        k <= t@.len(),
    ensures
        r == valid_mantissa(t@.take(k as int)),
{
    let ghost m = t@.take(k as int);
    let mut i: usize = 0;
    let mut seen_dot = false;
    let mut seen_digit = false;
    while i < k
        invariant
            i <= k <= t@.len(),
            m == t@.take(k as int),
            forall|q: int| 0 <= q < i ==> is_digit(m[q]) || m[q] == '.',
            forall|p: int, q: int| 0 <= p < q < i && m[p] == '.' ==> m[q] != '.',
            seen_dot == (exists|q: int| 0 <= q < i && m[q] == '.'),
            seen_digit == (exists|q: int| 0 <= q < i && is_digit(m[q])),
        decreases k - i,
    {
        let c = t[i];
        assert(m[i as int] == c);
        if c == '.' {
            if seen_dot {
                return false;
            }
            seen_dot = true;
        } else if is_digit_char(c) {
            seen_digit = true;
        } else {
            return false;
        }
        i = i + 1;
    }
    seen_digit
}

fn exponent_ok(t: &[char], k: usize) -> (r: bool)
    requires
        k < t@.len(),
    ensures
        r == valid_exponent(t@.skip(k as int)),
{
    let ghost e = t@.skip(k as int);
    if t.len() - k < 2 {
        return false;
    }
    if !is_ascii_letter_ci(t[k], 'e') {
        return false;
    }
    let mut j = k + 1;
    if t[j] == '+' || t[j] == '-' {
        j = j + 1;
    }
    proof {
        let r = e.drop_first();
        assert(r[0] == t@[k + 1]);
        let d = if r[0] == '+' || r[0] == '-' { r.drop_first() } else { r };
        assert(d =~= t@.skip(j as int));
    }
    if j == t.len() {
        return false;
    }
    let j0 = j;
    assert(valid_exponent(e) == (t@.skip(j0 as int).len() > 0 && all_digits(
        t@.skip(j0 as int),
    )));
    while j < t.len()
        invariant
            j0 <= j <= t@.len(),
            j0 < t@.len(),
            forall|q: int| j0 <= q < j ==> is_digit(t@[q]),
            valid_exponent(e) == (t@.skip(j0 as int).len() > 0 && all_digits(t@.skip(j0 as int))),
            e == t@.skip(k as int),
        decreases t@.len() - j,
    {
        if !is_digit_char(t[j]) {
            assert(t@.skip(j0 as int)[j - j0] == t@[j as int]);
            return false;
        }
        j = j + 1;
    }
    assert(all_digits(t@.skip(j0 as int))) by {
        assert forall|q: int| 0 <= q < t@.skip(j0 as int).len() implies is_digit(
            t@.skip(j0 as int)[q],
        ) by {
            assert(t@.skip(j0 as int)[q] == t@[j0 + q]);
        }
    }
    true
}

/// Whether `f32::from_str` accepts the text (see `is_float_literal`).
pub fn float_literal_ok(s: &[char]) -> (r: bool)
    ensures
        r == is_float_literal(s@),
{
    let start: usize = if s.len() > 0 && (s[0] == '+' || s[0] == '-') { 1 } else { 0 };
    let t = copy_range(s, start, s.len());
    assert(start == 1 ==> t@ =~= s@.drop_first());
    assert(start == 0 ==> t@ =~= s@);
    let inf = ['i', 'n', 'f'];
    let infinity = ['i', 'n', 'f', 'i', 'n', 'i', 't', 'y'];
    let nan = ['n', 'a', 'n'];
    assert(inf@ =~= seq!['i', 'n', 'f']);
    assert(infinity@ =~= seq!['i', 'n', 'f', 'i', 'n', 'i', 't', 'y']);
    assert(nan@ =~= seq!['n', 'a', 'n']);
    if word_ci(&t, &inf) || word_ci(&t, &infinity) || word_ci(&t, &nan) {
        return true;
    }
    let k = find_exp_index(&t);
    if !mantissa_ok(&t, k) {
        return false;
    }
    if k == t.len() {
        return true;
    }
    exponent_ok(&t, k)
}

/// The character of a decimal digit.
pub open spec fn digit_char(d: int) -> char {
    if d == 0 {
        '0'
    } else if d == 1 {
        '1'
    } else if d == 2 {
        '2'
    } else if d == 3 {
        '3'
    } else if d == 4 {
        '4'
    } else if d == 5 {
        '5'
    } else if d == 6 {
        '6'
    } else if d == 7 {
        '7'
    } else if d == 8 {
        '8'
    } else {
        '9'
    }
}

/// The decimal form of `n`, as `Display` writes it (no leading zeros).
pub open spec fn decimal(n: nat) -> Seq<char>
    decreases n,
{
    if n < 10 {
        seq![digit_char(n as int)]
    } else {
        decimal(n / 10).push(digit_char((n % 10) as int))
    }
}

/// The decimal form of a signed number: a `-` before negative values.
pub open spec fn signed_decimal(v: int) -> Seq<char> {
    if v < 0 {
        seq!['-'] + decimal((-v) as nat)
    } else {
        decimal(v as nat)
    }
}

fn digit_char_exec(d: u64) -> (c: char)
    requires
        d < 10,
    ensures
        c == digit_char(d as int),
{
    match d {
        0 => '0',
        1 => '1',
        2 => '2',
        3 => '3',
        4 => '4',
        5 => '5',
        6 => '6',
        7 => '7',
        8 => '8',
        _ => '9',
    }
}

/// Appends the decimal form of `n`.
pub fn push_decimal(out: &mut Vec<char>, n: u64)
    ensures
        final(out)@ == old(out)@ + decimal(n as nat),
    decreases n,
{
    if n >= 10 {
        push_decimal(out, n / 10);
    }
    let ghost mid = out@;
    out.push(digit_char_exec(n % 10));
    proof {
        if n >= 10 {
            assert(decimal(n as nat) == decimal((n / 10) as nat).push(digit_char((n % 10) as int)));
            assert(out@ =~= old(out)@ + decimal(n as nat));
        } else {
            assert(out@ =~= old(out)@ + decimal(n as nat));
        }
    }
}

/// Appends the decimal form of a signed number.
pub fn push_signed_decimal(out: &mut Vec<char>, v: i64)
    requires
        v > i64::MIN,
    ensures
        final(out)@ == old(out)@ + signed_decimal(v as int),
{
    if v < 0 {
        out.push('-');
        let ghost mid = out@;
        push_decimal(out, (-v) as u64);
        assert(out@ =~= old(out)@ + signed_decimal(v as int));
    } else {
        push_decimal(out, v as u64);
    }
}

/// Appends the characters of `s`.
pub fn append_chars(out: &mut Vec<char>, s: &[char])
    ensures
        final(out)@ == old(out)@ + s@,
{
    let mut i: usize = 0;
    while i < s.len()
        invariant
            i <= s@.len(),
            out@ == old(out)@ + s@.take(i as int),
        decreases s@.len() - i,
    {
        out.push(s[i]);
        assert(s@.take(i as int).push(s@[i as int]) =~= s@.take(i + 1));
        assert(old(out)@ + s@.take(i as int).push(s@[i as int]) =~= (old(out)@ + s@.take(
            i as int,
        )).push(s@[i as int]));
        i = i + 1;
    }
    assert(s@.take(s@.len() as int) =~= s@);
}

/// Appends the characters of a string slice.
pub fn append_str(out: &mut Vec<char>, s: &str)
    ensures
        final(out)@ == old(out)@ + s@,
{
    let cs = str_to_chars(s);
    append_chars(out, cs.as_slice());
}

/// The decimal form of `n` reads back as `n`, and it starts with a digit.
pub proof fn lemma_decimal_digits(n: nat)
    ensures
        decimal(n).len() > 0,
        all_digits(decimal(n)),
        digits_value(decimal(n)) == n,
    decreases n,
{
    if n >= 10 {
        lemma_decimal_digits(n / 10);
        let d = decimal(n);
        assert(d.drop_last() =~= decimal(n / 10));
        assert(forall|k: int| 0 <= k < d.len() - 1 ==> d[k] == decimal(n / 10)[k]);
        lemma_digit_char((n % 10) as int);
        assert(digits_value(d) == digits_value(d.drop_last()) * 10 + digit_val(d.last()));
        assert((n / 10) * 10 + n % 10 == n);
    } else {
        lemma_digit_char(n as int);
        let d = decimal(n);
        assert(d.drop_last() =~= Seq::<char>::empty());
        assert(digits_value(d) == digits_value(d.drop_last()) * 10 + digit_val(d.last()));
    }
}

proof fn lemma_digit_char(d: int)
    requires
        0 <= d < 10,
    ensures
        is_digit(digit_char(d)),
        digit_val(digit_char(d)) == d,
{
}

/// Parsing the decimal form of a number gives the number back.
pub proof fn lemma_parse_decimal(n: nat)
    ensures
        parse_unsigned(decimal(n)) == Some(n as int),
        parse_signed(decimal(n)) == Some(n as int),
{
    lemma_decimal_digits(n);
    assert(is_digit(decimal(n)[0]));
}

/// Parsing the signed decimal form of a number gives the number back.
pub proof fn lemma_parse_signed_decimal(v: int)
    ensures
        parse_signed(signed_decimal(v)) == Some(v),
{
    if v < 0 {
        let m = (-v) as nat;
        lemma_decimal_digits(m);
        let s = signed_decimal(v);
        assert(s.drop_first() =~= decimal(m));
    } else {
        lemma_parse_decimal(v as nat);
    }
}

/// The code of `c` with ASCII `A`-`Z` lowered.
pub open spec fn ascii_lower_code(c: char) -> u32 {
    let u = c as u32;
    if 65 <= u <= 90 {
        (u + 32) as u32
    } else {
        u
    }
}

/// `str::eq_ignore_ascii_case`.
pub open spec fn eq_ignore_ascii_case(a: Seq<char>, b: Seq<char>) -> bool {
    a.len() == b.len() && forall|i: int| 0 <= i < a.len() ==> ascii_lower_code(a[i]) == ascii_lower_code(b[i])
}

fn ascii_lower_code_exec(c: char) -> (r: u32)
    ensures
        r == ascii_lower_code(c),
{
    let u = c as u32;
    if 65 <= u && u <= 90 {
        u + 32
    } else {
        u
    }
}

/// `str::eq_ignore_ascii_case`, on characters.
pub fn chars_eq_ignore_ascii_case(a: &[char], b: &[char]) -> (r: bool)
    ensures
        r == eq_ignore_ascii_case(a@, b@),
{
    if a.len() != b.len() {
        return false;
    }
    let mut i: usize = 0;
    while i < a.len()
        invariant
            a@.len() == b@.len(),
            i <= a@.len(),
            forall|k: int| 0 <= k < i ==> ascii_lower_code(a@[k]) == ascii_lower_code(b@[k]),
        decreases a@.len() - i,
    {
        if ascii_lower_code_exec(a[i]) != ascii_lower_code_exec(b[i]) {
            return false;
        }
        i = i + 1;
    }
    true
}

/// `s` starts with `p`.
pub open spec fn has_prefix(s: Seq<char>, p: Seq<char>) -> bool {
    p.len() <= s.len() && s.take(p.len() as int) == p
}

/// `str::strip_prefix`, on characters.
pub fn strip_prefix_chars(s: &[char], p: &[char]) -> (r: Option<Vec<char>>)
    ensures
        match r {
            Some(rest) => has_prefix(s@, p@) && rest@ == s@.skip(p@.len() as int),
            None => !has_prefix(s@, p@),
        },
{
    if p.len() > s.len() {
        return None;
    }
    let head = copy_range(s, 0, p.len());
    assert(head@ =~= s@.take(p@.len() as int));
    if !chars_eq(head.as_slice(), p) {
        return None;
    }
    Some(copy_range(s, p.len(), s.len()))
}

/// No character of `s` is `c`.
pub open spec fn lacks(s: Seq<char>, c: char) -> bool {
    forall|i: int| 0 <= i < s.len() ==> s[i] != c
}

/// No character of `s` is whitespace.
pub open spec fn no_ws(s: Seq<char>) -> bool {
    forall|i: int| 0 <= i < s.len() ==> !is_ws(s[i])
}

/// Every character of `s` is whitespace.
pub open spec fn all_ws(s: Seq<char>) -> bool {
    forall|i: int| 0 <= i < s.len() ==> is_ws(s[i])
}

/// `s` has no whitespace at either end (`str::trim` leaves it as it is).
pub open spec fn trimmed(s: Seq<char>) -> bool {
    s.len() == 0 || (!is_ws(s[0]) && !is_ws(s.last()))
}

/// `items` with `sep` between each two, built from the front.
pub open spec fn join_with(items: Seq<Seq<char>>, sep: char) -> Seq<char>
    decreases items.len(),
{
    if items.len() == 0 {
        Seq::empty()
    } else if items.len() == 1 {
        items[0]
    } else {
        items[0] + seq![sep] + join_with(items.drop_first(), sep)
    }
}

proof fn lemma_split_skip(s: Seq<char>, c: char, i: int, k: int, st: int)
    requires
        0 <= st <= i <= k <= s.len(),
        forall|j: int| i <= j < k ==> s[j] != c,
    ensures
        split_from(s, c, i, st) == split_from(s, c, k, st),
    decreases k - i,
{
    if i < k {
        lemma_split_skip(s, c, i + 1, k, st);
    }
}

proof fn lemma_split_shift(p: Seq<char>, y: Seq<char>, c: char, j: int, st: int)
    requires
        0 <= st <= j <= y.len(),
    ensures
        split_from(p + y, c, p.len() + j, p.len() + st) == split_from(y, c, j, st),
    decreases y.len() - j,
{
    let s = p + y;
    let m = p.len() as int;
    if j >= y.len() {
        assert(s.subrange(m + st, s.len() as int) =~= y.subrange(st, y.len() as int));
    } else if y[j] == c {
        assert(s[m + j] == c);
        lemma_split_shift(p, y, c, j + 1, j + 1);
        assert(s.subrange(m + st, m + j) =~= y.subrange(st, j));
    } else {
        assert(s[m + j] == y[j]);
        lemma_split_shift(p, y, c, j + 1, st);
    }
}

/// Splitting `x`, `c`, `y` on `c` (with no `c` in `x`) gives `x`, then the
/// pieces of `y`.
pub proof fn lemma_split_concat(x: Seq<char>, y: Seq<char>, c: char)
    requires
        lacks(x, c),
    ensures
        split_on(x + seq![c] + y, c) == seq![x] + split_on(y, c),
{
    let s = x + seq![c] + y;
    let m = x.len() as int;
    lemma_split_skip(s, c, 0, m, 0);
    assert(s[m] == c);
    assert(s.subrange(0, m) =~= x);
    let p = x + seq![c];
    assert(s =~= p + y);
    lemma_split_shift(p, y, c, 0, 0);
}

/// Text without `c` splits into itself alone.
pub proof fn lemma_split_single(x: Seq<char>, c: char)
    requires
        lacks(x, c),
    ensures
        split_on(x, c) == seq![x],
{
    lemma_split_skip(x, c, 0, x.len() as int, 0);
    assert(x.subrange(0, x.len() as int) =~= x);
}

/// Joining pieces without `c` by `c` and splitting on `c` gives the pieces.
pub proof fn lemma_split_join(items: Seq<Seq<char>>, c: char)
    requires
        items.len() >= 1,
        forall|i: int| 0 <= i < items.len() ==> lacks(#[trigger] items[i], c),
    ensures
        split_on(join_with(items, c), c) == items,
    decreases items.len(),
{
    if items.len() == 1 {
        lemma_split_single(items[0], c);
        assert(seq![items[0]] =~= items);
    } else {
        let rest = items.drop_first();
        assert forall|i: int| 0 <= i < rest.len() implies lacks(#[trigger] rest[i], c) by {
            assert(rest[i] == items[i + 1]);
        }
        lemma_split_join(rest, c);
        assert(lacks(items[0], c));
        lemma_split_concat(items[0], join_with(rest, c), c);
        assert(seq![items[0]] + rest =~= items);
    }
}

proof fn lemma_ws_skip(s: Seq<char>, i: int, k: int, st: int)
    requires
        0 <= st <= i <= k <= s.len(),
        forall|j: int| i <= j < k ==> !is_ws(s[j]),
    ensures
        ws_tokens_from(s, i, st) == ws_tokens_from(s, k, st),
    decreases k - i,
{
    if i < k {
        lemma_ws_skip(s, i + 1, k, st);
    }
}

proof fn lemma_ws_shift(p: Seq<char>, y: Seq<char>, j: int, st: int)
    requires
        0 <= j <= y.len(),
        st == -1 || 0 <= st <= j,
    ensures
        ws_tokens_from(p + y, p.len() + j, if st == -1 {
            -1
        } else {
            p.len() + st
        }) == ws_tokens_from(y, j, st),
    decreases y.len() - j,
{
    let s = p + y;
    let m = p.len() as int;
    let st2 = if st == -1 {
        -1
    } else {
        m + st
    };
    if j >= y.len() {
        if st >= 0 {
            assert(s.subrange(m + st, s.len() as int) =~= y.subrange(st, y.len() as int));
        }
    } else if is_ws(y[j]) {
        assert(s[m + j] == y[j]);
        lemma_ws_shift(p, y, j + 1, -1);
        if st >= 0 {
            assert(s.subrange(m + st, m + j) =~= y.subrange(st, j));
        }
    } else {
        assert(s[m + j] == y[j]);
        lemma_ws_shift(p, y, j + 1, if st >= 0 {
            st
        } else {
            j
        });
    }
}

/// A word, a space, then the rest: the word is the first token.
pub proof fn lemma_ws_concat(a: Seq<char>, rest: Seq<char>, sp: char)
    requires
        a.len() > 0,
        no_ws(a),
        is_ws(sp),
    ensures
        split_ws(a + seq![sp] + rest) == seq![a] + split_ws(rest),
{
    let s = a + seq![sp] + rest;
    let m = a.len() as int;
    assert(!is_ws(s[0]));
    lemma_ws_skip(s, 1, m, 0);
    assert(s[m] == sp);
    assert(s.subrange(0, m) =~= a);
    let p = a + seq![sp];
    assert(s =~= p + rest);
    lemma_ws_shift(p, rest, 0, -1);
}

/// A single word is its own only token.
pub proof fn lemma_ws_single(a: Seq<char>)
    requires
        a.len() > 0,
        no_ws(a),
    ensures
        split_ws(a) == seq![a],
{
    assert(!is_ws(a[0]));
    lemma_ws_skip(a, 1, a.len() as int, 0);
    assert(a.subrange(0, a.len() as int) =~= a);
}

/// Words joined by a whitespace character split back into the words.
pub proof fn lemma_ws_join(items: Seq<Seq<char>>, sp: char)
    requires
        is_ws(sp),
        forall|i: int| 0 <= i < items.len() ==> (#[trigger] items[i]).len() > 0 && no_ws(items[i]),
    ensures
        split_ws(join_with(items, sp)) == items,
    decreases items.len(),
{
    if items.len() == 0 {
        assert(split_ws(Seq::<char>::empty()) =~= Seq::<Seq<char>>::empty());
        assert(items =~= Seq::<Seq<char>>::empty());
    } else if items.len() == 1 {
        assert(items[0].len() > 0 && no_ws(items[0]));
        lemma_ws_single(items[0]);
        assert(seq![items[0]] =~= items);
    } else {
        let rest = items.drop_first();
        assert forall|i: int| 0 <= i < rest.len() implies (#[trigger] rest[i]).len() > 0 && no_ws(
            rest[i],
        ) by {
            assert(rest[i] == items[i + 1]);
        }
        lemma_ws_join(rest, sp);
        assert(items[0].len() > 0 && no_ws(items[0]));
        lemma_ws_concat(items[0], join_with(rest, sp), sp);
        assert(seq![items[0]] + rest =~= items);
    }
}

proof fn lemma_skip_ws_exact(s: Seq<char>, i: int, k: int)
    requires
        0 <= i <= k <= s.len(),
        forall|j: int| i <= j < k ==> is_ws(s[j]),
        k == s.len() || !is_ws(s[k]),
    ensures
        skip_ws(s, i) == k,
    decreases k - i,
{
    if i < k {
        lemma_skip_ws_exact(s, i + 1, k);
    }
}

proof fn lemma_back_ws_exact(s: Seq<char>, lo: int, j: int, k: int)
    requires
        0 <= lo <= k <= j <= s.len(),
        forall|q: int| k <= q < j ==> is_ws(s[q]),
        k == lo || !is_ws(s[k - 1]),
    ensures
        back_ws(s, lo, j) == k,
    decreases j - k,
{
    if k < j {
        lemma_back_ws_exact(s, lo, j - 1, k);
    }
}

/// Trimming whitespace padding off a trimmed text gives the text.
pub proof fn lemma_trim_pad(w1: Seq<char>, x: Seq<char>, w2: Seq<char>)
    requires
        all_ws(w1),
        all_ws(w2),
        trimmed(x),
    ensures
        trim(w1 + x + w2) == x,
{
    let s = w1 + x + w2;
    let a = w1.len() as int;
    let b = a + x.len();
    if x.len() == 0 {
        lemma_skip_ws_exact(s, 0, s.len() as int);
        assert(s.subrange(s.len() as int, s.len() as int) =~= x);
    } else {
        assert(s[a] == x[0]);
        lemma_skip_ws_exact(s, 0, a);
        assert(s[b - 1] == x.last());
        lemma_back_ws_exact(s, a, s.len() as int, b);
        assert(s.subrange(a, b) =~= x);
    }
}

/// A trimmed text is its own trim.
pub proof fn lemma_trim_trimmed(x: Seq<char>)
    requires
        trimmed(x),
    ensures
        trim(x) == x,
{
    lemma_trim_pad(Seq::empty(), x, Seq::empty());
    assert(Seq::<char>::empty() + x + Seq::<char>::empty() =~= x);
}

} // verus!
