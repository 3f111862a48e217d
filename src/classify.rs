//! Classification of raw event text into counter mutations.
//!
//! A text such as `counter++` or `🎉🎉--` names a counter and a direction.
//! Everything else is not a mutation.
use vstd::prelude::*;
use vstd::string::*;
use vstd::utf8::*;

verus! {

/// Texts of this many bytes or more are never mutations.
pub const MAX_TEXT_BYTES: usize = 60;

/// Texts of fewer characters than this are never mutations.
pub const MIN_TEXT_CHARS: usize = 3;

/// Which way a mutation moves its counter.
#[derive(Clone, Copy, Debug, PartialEq, Eq, Structural)]
pub enum Direction {
    Increment,
    Decrement,
}

impl Direction {
    pub open spec fn spec_effect(self) -> int {
        match self {
            Direction::Increment => 1,
            Direction::Decrement => -1,
        }
    }

    /// The signed unit this direction applies to a counter.
    pub fn effect(self) -> (r: i64)
        ensures
            r == self.spec_effect(),
    {
        match self {
            Direction::Increment => 1,
            Direction::Decrement => -1,
        }
    }
}

/// A validated request to move the counter `label` by one step.
#[derive(Clone, Debug)]
pub struct MutationRequest {
    pub label: String,
    pub direction: Direction,
}

/// The outcome of classifying one text.
#[derive(Clone, Debug)]
pub enum Classification {
    NotAMutation,
    Mutation(MutationRequest),
}

/// The Unicode `White_Space` property.
pub open spec fn is_white_space(c: char) -> bool {
    ('\u{9}' <= c && c <= '\u{d}') || c == ' ' || c == '\u{85}' || c == '\u{a0}'
        || c == '\u{1680}' || ('\u{2000}' <= c && c <= '\u{200a}') || c == '\u{2028}'
        || c == '\u{2029}' || c == '\u{202f}' || c == '\u{205f}' || c == '\u{3000}'
}

/// `s` without its leading white space.
pub open spec fn trim_start(s: Seq<char>) -> Seq<char>
    decreases s.len(),
{
    if s.len() > 0 && is_white_space(s[0]) {
        trim_start(s.drop_first())
    } else {
        s
    }
}

/// `s` without its trailing white space.
pub open spec fn trim_end(s: Seq<char>) -> Seq<char>
    decreases s.len(),
{
    if s.len() > 0 && is_white_space(s.last()) {
        trim_end(s.drop_last())
    } else {
        s
    }
}

/// `s` without its surrounding white space; white space inside stays.
pub open spec fn trimmed(s: Seq<char>) -> Seq<char> {
    trim_end(trim_start(s))
}

/// Characters of plain token syntax: ASCII word characters and `<`, `>`, `:`
/// (which let mention and emoji-code syntax through).
pub open spec fn is_token_char(c: char) -> bool {
    ('a' <= c && c <= 'z') || ('A' <= c && c <= 'Z') || ('0' <= c && c <= '9') || c == '_'
        || c == '<' || c == '>' || c == ':'
}

pub open spec fn is_token(s: Seq<char>) -> bool {
    s.len() > 0 && forall|i: int| 0 <= i < s.len() ==> is_token_char(#[trigger] s[i])
}

/// The Unicode `Emoji` property of a character.
pub uninterp spec fn emoji_property(c: char) -> bool;

pub open spec fn is_emoji_run(s: Seq<char>) -> bool {
    s.len() > 0 && forall|i: int| 0 <= i < s.len() ==> emoji_property(#[trigger] s[i])
}

/// The direction named by the last two characters of `s`, if they are an operator.
pub open spec fn operator_direction(s: Seq<char>) -> Option<Direction> {
    if s.len() >= 2 && s[s.len() - 2] == '+' && s[s.len() - 1] == '+' {
        Some(Direction::Increment)
    } else if s.len() >= 2 && s[s.len() - 2] == '-' && s[s.len() - 1] == '-' {
        Some(Direction::Decrement)
    } else {
        None
    }
}

/// `s` without its trailing operator.
pub open spec fn label_candidate(s: Seq<char>) -> Seq<char> {
    s.subrange(0, s.len() - 2)
}

pub open spec fn within_bounds(s: Seq<char>) -> bool {
    s.len() >= MIN_TEXT_CHARS && encode_utf8(s).len() < MAX_TEXT_BYTES
}

/// Whether the candidate label of `s` passes its policy: in an ASCII text
/// the candidate, without its surrounding white space, must be plain token
/// syntax; any other text is judged by `emoji_ok`, whether that trimmed
/// candidate is all emoji.
pub open spec fn label_passes(s: Seq<char>, emoji_ok: bool) -> bool {
    if is_ascii_chars(s) {
        is_token(trimmed(label_candidate(s)))
    } else {
        emoji_ok
    }
}

pub open spec fn accepts_with(s: Seq<char>, emoji_ok: bool) -> bool {
    within_bounds(s) && operator_direction(s) is Some && label_passes(s, emoji_ok)
}

/// Whether the emoji policy holds of the candidate label of `s`.
pub open spec fn candidate_is_emoji(s: Seq<char>) -> bool {
    is_emoji_run(trimmed(label_candidate(s)))
}

/// Whether `s` is a mutation.
pub open spec fn accepts(s: Seq<char>) -> bool {
    accepts_with(s, candidate_is_emoji(s))
}

impl Classification {
    /// `self` is the classification of `s`, given the emoji policy's verdict.
    pub open spec fn describes(self, s: Seq<char>, emoji_ok: bool) -> bool {
        match self {
            Classification::NotAMutation => !accepts_with(s, emoji_ok),
            Classification::Mutation(m) => accepts_with(s, emoji_ok) && m.label@
                == label_candidate(s) && operator_direction(s) == Some(m.direction),
        }
    }

    pub open spec fn is_mutation(self) -> bool {
        self is Mutation
    }
}

/// Relies on `unic_emoji_char::is_emoji`: the Unicode `Emoji` property of
/// one character, read from the crate's table.
#[verifier::external_body]
fn emoji_char(c: char) -> (r: bool)
    ensures
        r == emoji_property(c),
{
    unic_emoji_char::is_emoji(c)
}

/// Relies on `regex::Regex::new` and `regex::Regex::is_match`. The pattern
/// `^[\w<>:]+$` is valid, and on ASCII text `\w` is `[0-9A-Za-z_]`, so it
/// matches exactly the non-empty runs of token characters.
#[verifier::external_body]
fn pattern_matches(pattern: &str, text: &str) -> (r: bool)
    requires
        pattern@ == token_pattern(),
        is_ascii_chars(text@),
    ensures
        r == is_token(text@),
{
    match regex::Regex::new(pattern) {
        Ok(re) => re.is_match(text),
        Err(_) => false,
    }
}

/// The characters of the regular expression `^[\w<>:]+$`.
pub open spec fn token_pattern() -> Seq<char> {
    seq!['^', '[', '\\', 'w', '<', '>', ':', ']', '+', '$']
}

pub fn is_white_space_char(c: char) -> (r: bool)
    ensures
        r == is_white_space(c),
{
    ('\u{9}' <= c && c <= '\u{d}') || c == ' ' || c == '\u{85}' || c == '\u{a0}'
        || c == '\u{1680}' || ('\u{2000}' <= c && c <= '\u{200a}') || c == '\u{2028}'
        || c == '\u{2029}' || c == '\u{202f}' || c == '\u{205f}' || c == '\u{3000}'
}

/// `s` without its surrounding white space.
pub fn trim_white_space(s: &str) -> (r: String)
    ensures
        r@ == trimmed(s@),
{
    let n = s.unicode_len();
    let mut i: usize = 0;
    let mut at_label = false;
    proof {
        assert(s@.subrange(0, n as int) =~= s@);
    }
    while i < n && !at_label
        invariant
            n == s@.len(),
            i <= n,
            trim_start(s@) == trim_start(s@.subrange(i as int, n as int)),
            at_label ==> i < n && !is_white_space(s@[i as int]),
        decreases n - i + if at_label { 0int } else { 1int },
    {
        if is_white_space_char(s.get_char(i)) {
            proof {
                assert(s@.subrange(i as int, n as int)[0] == s@[i as int]);
                assert(s@.subrange(i as int, n as int).drop_first() =~= s@.subrange(i + 1, n as int));
            }
            i = i + 1;
        } else {
            at_label = true;
        }
    }
    proof {
        if i < n {
            assert(s@.subrange(i as int, n as int)[0] == s@[i as int]);
        }
    }
    let mut j: usize = n;
    let mut at_end = false;
    while j > i && !at_end
        invariant
            n == s@.len(),
            i <= j <= n,
            trim_end(s@.subrange(i as int, n as int)) == trim_end(s@.subrange(i as int, j as int)),
            at_end ==> j > i && !is_white_space(s@[j - 1]),
        decreases j + if at_end { 0int } else { 1int },
    {
        if is_white_space_char(s.get_char(j - 1)) {
            proof {
                assert(s@.subrange(i as int, j as int).last() == s@[j - 1]);
                assert(s@.subrange(i as int, j as int).drop_last() =~= s@.subrange(i as int, j - 1));
            }
            j = j - 1;
        } else {
            at_end = true;
        }
    }
    proof {
        if j > i {
            assert(s@.subrange(i as int, j as int).last() == s@[j - 1]);
        }
    }
    s.substring_char(i, j).to_owned()
}

/// Whether `s` is non-empty and made of emoji characters alone.
pub fn is_emoji_text(s: &str) -> (r: bool)
    ensures
        r == is_emoji_run(s@),
{
    let n = s.unicode_len();
    if n == 0 {
        return false;
    }
    let mut i: usize = 0;
    while i < n
        invariant
            n == s@.len(),
            i <= n,
            forall|j: int| 0 <= j < i ==> emoji_property(#[trigger] s@[j]),
        decreases n - i,
    {
        if !emoji_char(s.get_char(i)) {
            return false;
        }
        i = i + 1;
    }
    true
}

/// Classifies `text`, taking the emoji policy's verdict on its candidate
/// label as `emoji_ok` (it matters only for non-ASCII text).
pub fn classify_with(text: &str, emoji_ok: bool) -> (r: Classification)
    ensures
        r.describes(text@, emoji_ok),
{
    if text.as_bytes().len() >= MAX_TEXT_BYTES {
        return Classification::NotAMutation;
    }
    let n = text.unicode_len();
    if n < MIN_TEXT_CHARS {
        return Classification::NotAMutation;
    }
    let prev = text.get_char(n - 2);
    let last = text.get_char(n - 1);
    let direction = if prev == '+' && last == '+' {
        Direction::Increment
    } else if prev == '-' && last == '-' {
        Direction::Decrement
    } else {
        return Classification::NotAMutation;
    };
    let candidate = text.substring_char(0, n - 2);
    let ok = if text.is_ascii() {
        let stripped = trim_white_space(candidate);
        proof {
            lemma_trim_keeps_ascii(candidate@);
        }
        let pattern = "^[\\w<>:]+$";
        proof {
            reveal_strlit("^[\\w<>:]+$");
            assert(pattern@ =~= token_pattern());
        }
        pattern_matches(pattern, stripped.as_str())
    } else {
        emoji_ok
    };
    if ok {
        Classification::Mutation(MutationRequest { label: candidate.to_owned(), direction })
    } else {
        Classification::NotAMutation
    }
}

/// Classifies `text`: a mutation when it is shorter than `MAX_TEXT_BYTES`
/// bytes, has at least `MIN_TEXT_CHARS` characters, ends in `++` or `--`,
/// and its label (the text before the operator) passes the policy that
/// fits the text: plain token syntax for ASCII text, emoji alone otherwise.
pub fn classify(text: &str) -> (r: Classification)
    ensures
        r.describes(text@, candidate_is_emoji(text@)),
        r.is_mutation() == accepts(text@),
{
    let n = text.unicode_len();
    let emoji_ok = if !text.is_ascii() && n >= 2 {
        let stripped = trim_white_space(text.substring_char(0, n - 2));
        is_emoji_text(stripped.as_str())
    } else {
        false
    };
    classify_with(text, emoji_ok)
}

proof fn lemma_trim_keeps_ascii(s: Seq<char>)
    requires
        is_ascii_chars(s),
    ensures
        is_ascii_chars(trimmed(s)),
{
    lemma_trim_start_keeps_ascii(s);
    lemma_trim_end_keeps_ascii(trim_start(s));
}

proof fn lemma_trim_start_keeps_ascii(s: Seq<char>)
    requires
        is_ascii_chars(s),
    ensures
        is_ascii_chars(trim_start(s)),
    decreases s.len(),
{
    if s.len() > 0 && is_white_space(s[0]) {
        assert(is_ascii_chars(s.drop_first()));
        lemma_trim_start_keeps_ascii(s.drop_first());
    }
}

proof fn lemma_trim_end_keeps_ascii(s: Seq<char>)
    requires
        is_ascii_chars(s),
    ensures
        is_ascii_chars(trim_end(s)),
    decreases s.len(),
{
    if s.len() > 0 && is_white_space(s.last()) {
        assert(is_ascii_chars(s.drop_last()));
        lemma_trim_end_keeps_ascii(s.drop_last());
    }
}

} // verus!
