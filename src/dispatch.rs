//! What to do with one inbound message, and the text of each reply.
use vstd::prelude::*;
use vstd::string::*;
use crate::classify::{accepts, candidate_is_emoji, classify, Classification, MutationRequest};

verus! {

/// What an inbound message asks of the ledger.
#[derive(Clone, Debug)]
pub enum Request {
    Ignore,
    TopCounters,
    TopAuthors,
    Mutate(MutationRequest),
}

/// What `str::to_lowercase` makes of a text.
pub uninterp spec fn lowercase_of(s: Seq<char>) -> Seq<char>;

/// Relies on `str::to_lowercase`: the result depends on the characters alone.
#[verifier::external_body]
fn lowercase(s: &str) -> (r: String)
    ensures
        r@ == lowercase_of(s@),
{
    s.to_lowercase()
}

/// `pattern` occurs in `s`.
pub open spec fn contains_text(s: Seq<char>, pattern: Seq<char>) -> bool {
    exists|i: int| 0 <= i && i + pattern.len() <= s.len() && #[trigger] s.subrange(i, i + pattern.len()) == pattern
}

/// Whether `pattern` occurs in `s`.
pub fn contains(s: &str, pattern: &str) -> (r: bool)
    ensures
        r == contains_text(s@, pattern@),
{
    let n = s.unicode_len();
    let p = pattern.unicode_len();
    if p > n {
        proof {
            assert forall|i: int| 0 <= i && i + p <= n implies #[trigger] s@.subrange(i, i + p) != pattern@ by {}
        }
        return false;
    }
    let mut i: usize = 0;
    while i <= n - p
        invariant
            n == s@.len(),
            p == pattern@.len(),
            p <= n,
            i <= n - p + 1,
            forall|q: int| 0 <= q < i ==> #[trigger] s@.subrange(q, q + p) != pattern@,
        decreases n - p + 1 - i,
    {
        let mut j: usize = 0;
        let mut same = true;
        while j < p
            invariant
                n == s@.len(),
                p == pattern@.len(),
                i + p <= n,
                j <= p,
                same == (forall|t: int| 0 <= t < j ==> s@[i + t] == #[trigger] pattern@[t]),
            decreases p - j,
        {
            if s.get_char(i + j) != pattern.get_char(j) {
                same = false;
            }
            j = j + 1;
        }
        if same {
            proof {
                assert(s@.subrange(i as int, i + p) =~= pattern@);
            }
            return true;
        }
        proof {
            assert(s@.subrange(i as int, i + p) != pattern@) by {
                if s@.subrange(i as int, i + p) == pattern@ {
                    assert forall|t: int| 0 <= t < p implies s@[i + t] == #[trigger] pattern@[t] by {
                        assert(s@.subrange(i as int, i + p)[t] == s@[i + t]);
                    }
                }
            }
        }
        i = i + 1;
    }
    false
}

pub open spec fn user_word() -> Seq<char> {
    seq!['u', 's', 'e', 'r']
}

pub open spec fn leaderboard_word() -> Seq<char> {
    seq!['l', 'e', 'a', 'd', 'e', 'r', 'b', 'o', 'a', 'r', 'd']
}

/// The leaderboard a lower-cased mention asks for: the authors' when it
/// names both "user" and "leaderboard", the counters' when it names
/// "leaderboard" alone, none otherwise.
pub open spec fn mention_request(lowered: Seq<char>) -> Request {
    if contains_text(lowered, user_word()) && contains_text(lowered, leaderboard_word()) {
        Request::TopAuthors
    } else if contains_text(lowered, leaderboard_word()) {
        Request::TopCounters
    } else {
        Request::Ignore
    }
}

/// Routes a mention of the bot, given its lower-cased text.
pub fn route_mention(lowered: &str) -> (r: Request)
    ensures
        r == mention_request(lowered@),
{
    let user = "user";
    let leaderboard = "leaderboard";
    proof {
        reveal_strlit("user");
        reveal_strlit("leaderboard");
        assert(user@ =~= user_word());
        assert(leaderboard@ =~= leaderboard_word());
    }
    let has_leaderboard = contains(lowered, leaderboard);
    if has_leaderboard && contains(lowered, user) {
        Request::TopAuthors
    } else if has_leaderboard {
        Request::TopCounters
    } else {
        Request::Ignore
    }
}

/// Decides what an inbound message asks for. Messages from bots and
/// messages outside any scope are ignored; a mention of this bot asks for a
/// leaderboard; any other message is classified as a possible mutation.
pub fn route(from_bot: bool, in_scope: bool, mentions_me: bool, text: &str) -> (r: Request)
    ensures
        from_bot || !in_scope ==> r is Ignore,
        !from_bot && in_scope && mentions_me ==> r == mention_request(lowercase_of(text@)),
        !from_bot && in_scope && !mentions_me ==> match r {
            Request::Mutate(m) => Classification::Mutation(m).describes(text@, candidate_is_emoji(text@)),
            Request::Ignore => !accepts(text@),
            _ => false,
        },
{
    if from_bot || !in_scope {
        return Request::Ignore;
    }
    if mentions_me {
        let lowered = lowercase(text);
        return route_mention(lowered.as_str());
    }
    match classify(text) {
        Classification::Mutation(m) => Request::Mutate(m),
        Classification::NotAMutation => Request::Ignore,
    }
}

} // verus!
