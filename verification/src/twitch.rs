//! Twitch credentials, the chat participants seen over time, and the search
//! for viewers whose names resemble a player in the current match.

use vstd::prelude::*;

use crate::outside::{
    edit_distance, levenshtein_distance, span_minutes, timestamp_minutes_between, MAX_TIMESTAMP_NANOS,
    MIN_TIMESTAMP_NANOS,
};

use crate::text::{
    concat_text, join, join_text, signed_decimal, signed_decimal_text, views, chars_of, compare_chars, contains_chars, has_substring, lex_compare, parse_u64, pieces,
    spec_parse_u64, split_chars, string_of, sub_chars, utf8_len, utf8_len_exceeds,
};

verus! {

/// Twitch credentials as stored in the settings.
#[derive(Debug, Clone)]
pub struct Token {
    username: String,
    user_id: u64,
    client_id: String,
    oauth_token: String,
}

impl Token {
    pub closed spec fn spec_username(&self) -> Seq<char> {
        self.username@
    }

    pub closed spec fn spec_user_id(&self) -> u64 {
        self.user_id
    }

    pub closed spec fn spec_client_id(&self) -> Seq<char> {
        self.client_id@
    }

    pub closed spec fn spec_oauth_token(&self) -> Seq<char> {
        self.oauth_token@
    }

    pub fn username(&self) -> (r: &str)
        ensures
            r@ == self.spec_username(),
    {
        self.username.as_str()
    }

    pub fn user_id(&self) -> (r: u64)
        ensures
            r == self.spec_user_id(),
    {
        self.user_id
    }

    pub fn client_id(&self) -> (r: &str)
        ensures
            r@ == self.spec_client_id(),
    {
        self.client_id.as_str()
    }

    pub fn oauth_token(&self) -> (r: &str)
        ensures
            r@ == self.spec_oauth_token(),
    {
        self.oauth_token.as_str()
    }
}

/// The fields read so far: username, user id, client id, OAuth token.
pub type TokenFields = (Option<Seq<char>>, Option<u64>, Option<Seq<char>>, Option<Seq<char>>);

/// Reads one `key=value` part into the fields; `None` when the part is
/// malformed or names an unknown key. Empty parts are skipped and a later
/// value for a key replaces an earlier one.
pub open spec fn token_step(state: Option<TokenFields>, part: Seq<char>) -> Option<TokenFields> {
    match state {
        None => None,
        Some(f) => if part.len() == 0 {
            Some(f)
        } else {
            let kv = pieces(part, '=');
            if kv.len() < 2 {
                None
            } else {
                let key = kv[0];
                let value = kv[1];
                if key == "username"@ {
                    Some((Some(value), f.1, f.2, f.3))
                } else if key == "user_id"@ {
                    match spec_parse_u64(value) {
                        Some(id) => Some((f.0, Some(id), f.2, f.3)),
                        None => None,
                    }
                } else if key == "client_id"@ {
                    Some((f.0, f.1, Some(value), f.3))
                } else if key == "oauth_token"@ {
                    Some((f.0, f.1, f.2, Some(value)))
                } else {
                    None
                }
            }
        },
    }
}

/// The fields after reading the first `n` parts.
pub open spec fn token_state(parts: Seq<Seq<char>>, n: int) -> Option<TokenFields>
    decreases n,
{
    if n <= 0 {
        Some((None, None, None, None))
    } else {
        token_step(token_state(parts, n - 1), parts[n - 1])
    }
}

/// The credentials a settings string describes: ';'-separated `key=value`
/// parts naming all four fields, or `None`.
pub open spec fn spec_parse_token(s: Seq<char>) -> Option<(Seq<char>, u64, Seq<char>, Seq<char>)> {
    let parts = pieces(s, ';');
    match token_state(parts, parts.len() as int) {
        Some((Some(u), Some(id), Some(c), Some(o))) => Some((u, id, c, o)),
        _ => None,
    }
}

fn is_key(key: &Vec<char>, name: &str) -> (r: bool)
    ensures
        r == (key@ == name@),
{
    let n = chars_of(name);
    proof {
        crate::text::lemma_lex_equal(key@, n@);
    }
    compare_chars(key, &n) == 0
}

/// Parses credentials from the settings format
/// `username=..;user_id=..;client_id=..;oauth_token=..`.
pub fn parse_token(s: &str) -> (r: Result<Token, ()>)
    ensures
        match spec_parse_token(s@) {
            Some((u, id, c, o)) => r matches Ok(t) && t.spec_username() == u && t.spec_user_id() == id
                && t.spec_client_id() == c && t.spec_oauth_token() == o,
            None => r is Err,
        },
{
    let chars = chars_of(s);
    let parts = split_chars(&chars, ';');
    let ghost spec_parts = pieces(s@, ';');
    let mut username: Option<String> = None;
    let mut user_id: Option<u64> = None;
    let mut client_id: Option<String> = None;
    let mut oauth_token: Option<String> = None;
    let mut i: usize = 0;
    while i < parts.len()
        invariant
            spec_parts == pieces(s@, ';'),
            parts@.len() == spec_parts.len(),
            forall|k: int| 0 <= k < parts@.len() ==> #[trigger] parts@[k]@ == spec_parts[k],
            i <= parts@.len(),
            token_state(spec_parts, i as int) == Some(
                (
                    match username {
                        Some(u) => Some(u@),
                        None => None,
                    },
                    user_id,
                    match client_id {
                        Some(c) => Some(c@),
                        None => None,
                    },
                    match oauth_token {
                        Some(o) => Some(o@),
                        None => None,
                    },
                ),
            ),
        decreases parts@.len() - i,
    {
        let part = &parts[i];
        if part.len() > 0 {
            let kv = split_chars(part, '=');
            if kv.len() < 2 {
                proof {
                    assert(part@ == spec_parts[i as int]);
                    assert(pieces(part@, '=').len() < 2);
                    assert(token_step(token_state(spec_parts, i as int), spec_parts[i as int]) is None);
                    lemma_token_state_error(spec_parts, i as int);
                }
                return Err(());
            }
            let key = &kv[0];
            let value = &kv[1];
            if is_key(key, "username") {
                username = Some(string_of(value));
            } else if is_key(key, "user_id") {
                match parse_u64(value) {
                    Some(id) => {
                        user_id = Some(id);
                    },
                    None => {
                        proof {
                            lemma_token_state_error(spec_parts, i as int);
                        }
                        return Err(());
                    },
                }
            } else if is_key(key, "client_id") {
                client_id = Some(string_of(value));
            } else if is_key(key, "oauth_token") {
                oauth_token = Some(string_of(value));
            } else {
                proof {
                    assert(part@ == spec_parts[i as int]);
                    assert(kv@[0]@ == pieces(part@, '=')[0]);
                    assert(token_step(token_state(spec_parts, i as int), spec_parts[i as int]) is None);
                    lemma_token_state_error(spec_parts, i as int);
                }
                return Err(());
            }
        }
        i = i + 1;
    }
    match (username, user_id, client_id, oauth_token) {
        (Some(u), Some(id), Some(c), Some(o)) => Ok(
            Token { username: u, user_id: id, client_id: c, oauth_token: o },
        ),
        _ => Err(()),
    }
}

/// Once a part is rejected, no later part recovers.
proof fn lemma_token_state_error(parts: Seq<Seq<char>>, i: int)
    requires
        0 <= i < parts.len(),
        token_step(token_state(parts, i), parts[i]) is None,
    ensures
        spec_parse_token_of(parts) is None,
{
    lemma_token_state_stays_none(parts, i + 1, parts.len() as int);
}

pub open spec fn spec_parse_token_of(parts: Seq<Seq<char>>) -> Option<(Seq<char>, u64, Seq<char>, Seq<char>)> {
    match token_state(parts, parts.len() as int) {
        Some((Some(u), Some(id), Some(c), Some(o))) => Some((u, id, c, o)),
        _ => None,
    }
}

proof fn lemma_token_state_stays_none(parts: Seq<Seq<char>>, from: int, to: int)
    requires
        0 < from <= to <= parts.len(),
        token_state(parts, from) is None,
    ensures
        token_state(parts, to) is None,
    decreases to - from,
{
    if from < to {
        lemma_token_state_stays_none(parts, from, to - 1);
    }
}

impl std::str::FromStr for Token {
    type Err = ();

    fn from_str(s: &str) -> (r: Result<Self, Self::Err>)
        ensures
            match spec_parse_token(s@) {
                Some((u, id, c, o)) => r matches Ok(t) && t.spec_username() == u && t.spec_user_id() == id
                    && t.spec_client_id() == c && t.spec_oauth_token() == o,
                None => r is Err,
            },
    {
        parse_token(s)
    }
}

/// A change the UI asks the Twitch task to apply.
#[derive(Debug)]
pub enum TwitchUpdate {
    Token(Token),
    User(String),
}

/// An instant inside the range of `jiff` timestamps, in nanoseconds since
/// the Unix epoch.
pub open spec fn valid_instant(t: i128) -> bool {
    MIN_TIMESTAMP_NANOS <= t <= MAX_TIMESTAMP_NANOS
}

/// Strictly increasing: the sequence holds a set of instants in order.
pub open spec fn strictly_increasing(s: Seq<i128>) -> bool {
    forall|i: int, j: int| 0 <= i < j < s.len() ==> #[trigger] s[i] < #[trigger] s[j]
}

/// The chat participants seen by the Twitch task, each with the instants
/// (nanoseconds since the Unix epoch) at which they were in the chat.
#[derive(Debug)]
pub struct Participants {
    entries: Vec<(String, Vec<i128>)>,
}

pub open spec fn entry_view(e: (String, Vec<i128>)) -> (Seq<char>, Seq<i128>) {
    (e.0@, e.1@)
}

/// The instants recorded for `name`, if it was ever seen.
pub open spec fn timestamps_of(v: Seq<(Seq<char>, Seq<i128>)>, name: Seq<char>) -> Option<Seq<i128>>
    decreases v.len(),
{
    if v.len() == 0 {
        None
    } else if v[0].0 == name {
        Some(v[0].1)
    } else {
        timestamps_of(v.drop_first(), name)
    }
}

/// Adds an instant to a strictly increasing sequence of instants, keeping it
/// strictly increasing; an instant already present is not added twice.
#[verifier::spinoff_prover]
pub fn insert_instant(ts: Vec<i128>, now: i128) -> (r: Vec<i128>)
    requires
        strictly_increasing(ts@),
    ensures
        strictly_increasing(r@),
        forall|t: i128| r@.contains(t) <==> (ts@.contains(t) || t == now),
{
    let mut ts = ts;
    let mut p: usize = 0;
    while p < ts.len() && ts[p] < now
        invariant
            p <= ts.len(),
            forall|k: int| 0 <= k < p ==> ts@[k] < now,
        decreases ts.len() - p,
    {
        p = p + 1;
    }
    if p < ts.len() && ts[p] == now {
        return ts;
    }
    let ghost old_ts = ts@;
    ts.insert(p, now);
    proof {
        assert forall|t: i128| ts@.contains(t) <==> (old_ts.contains(t) || t == now) by {
            if ts@.contains(t) {
                let k = choose|k: int| 0 <= k < ts@.len() && ts@[k] == t;
                if k < p {
                    assert(old_ts[k] == t);
                } else if k > p {
                    assert(old_ts[k - 1] == t);
                }
            }
            if old_ts.contains(t) {
                let k = choose|k: int| 0 <= k < old_ts.len() && old_ts[k] == t;
                if k < p {
                    assert(ts@[k] == t);
                } else {
                    assert(ts@[k + 1] == t);
                }
            }
            if t == now {
                assert(ts@[p as int] == now);
            }
        }
        assert forall|i: int, j: int| 0 <= i < j < ts@.len() implies #[trigger] ts@[i] < #[trigger] ts@[j] by {
            if j < p {
                assert(old_ts[i] < old_ts[j]);
            } else if j == p {
            } else if i < p {
                assert(old_ts[i] < now);
                assert(old_ts[j - 1] >= now) by {
                    if j - 1 > p {
                        assert(old_ts[p as int] < old_ts[j - 1]);
                    }
                }
            } else if i == p {
                assert(old_ts[j - 1] > now) by {
                    if j - 1 > p {
                        assert(old_ts[p as int] < old_ts[j - 1]);
                    }
                }
            } else {
                assert(old_ts[i - 1] < old_ts[j - 1]);
            }
        }
    }
    ts
}

proof fn lemma_timestamps_of_at(v: Seq<(Seq<char>, Seq<i128>)>, i: int)
    requires
        0 <= i < v.len(),
        forall|a: int, b: int| 0 <= a < b < v.len() ==> #[trigger] v[a].0 != #[trigger] v[b].0,
    ensures
        timestamps_of(v, v[i].0) == Some(v[i].1),
    decreases v.len(),
{
    if i > 0 {
        assert(v[0].0 != v[i].0);
        assert forall|a: int, b: int| 0 <= a < b < v.drop_first().len() implies #[trigger] v.drop_first()[a].0
            != #[trigger] v.drop_first()[b].0 by {
            assert(v[a + 1].0 != v[b + 1].0);
        }
        lemma_timestamps_of_at(v.drop_first(), i - 1);
    }
}

proof fn lemma_timestamps_of_absent(v: Seq<(Seq<char>, Seq<i128>)>, name: Seq<char>)
    requires
        forall|a: int| 0 <= a < v.len() ==> (#[trigger] v[a]).0 != name,
    ensures
        timestamps_of(v, name) is None,
    decreases v.len(),
{
    if v.len() > 0 {
        assert(v[0].0 != name);
        assert forall|a: int| 0 <= a < v.drop_first().len() implies (#[trigger] v.drop_first()[a]).0 != name by {
            assert(v[a + 1].0 != name);
        }
        lemma_timestamps_of_absent(v.drop_first(), name);
    }
}

/// The instants of a name before a new one was recorded (none for a name
/// never seen).
pub open spec fn known_instants(v: Seq<(Seq<char>, Seq<i128>)>, name: Seq<char>) -> Seq<i128> {
    match timestamps_of(v, name) {
        Some(ts) => ts,
        None => Seq::empty(),
    }
}

/// How long a chat participant's presence is remembered: thirty minutes, in
/// nanoseconds.
pub const MEMORY_WINDOW_NANOS: i128 = 1_800_000_000_000i128;

/// Keeps the instants strictly after `cutoff`.
pub open spec fn after(cutoff: i128) -> spec_fn(i128) -> bool {
    |t: i128| t > cutoff
}

/// An instant whose minutes from the match start, as the minutes field of
/// `jiff`'s `Timestamp - Timestamp`, lie above -2 and below 20. That field
/// is always zero, so every instant passes.
pub open spec fn near_match(match_time: i128) -> spec_fn(i128) -> bool {
    |t: i128| -2 < span_minutes(t, match_time) && span_minutes(t, match_time) < 20
}

/// The `k`-th run of five characters of `name` (the last run may be shorter).
pub open spec fn name_chunk(name: Seq<char>, k: int) -> Seq<char> {
    let end = if 5 * k + 5 <= name.len() {
        5 * k + 5
    } else {
        name.len() as int
    };
    name.subrange(5 * k, end)
}

/// The number of runs of five characters in `name`.
pub open spec fn chunk_count(name: Seq<char>) -> int {
    ((name.len() + 4) / 5) as int
}

/// A viewer name resembles a player name when the player name is longer than
/// five bytes and at most three edits away, or when a five-character run of
/// the player name that is longer than five bytes occurs in the viewer name.
pub open spec fn resembles(viewer: Seq<char>, name: Seq<char>) -> bool {
    ||| (utf8_len(name) > 5 && edit_distance(viewer, name) <= 3)
    ||| exists|k: int|
        0 <= k < chunk_count(name) && utf8_len(#[trigger] name_chunk(name, k)) > 5 && has_substring(
            viewer,
            name_chunk(name, k),
        )
}

/// The viewers whose names resemble `name`, each with the instants at which
/// they were in the chat around the match start; a viewer with no such
/// instant is left out.
pub open spec fn sniper_matches(v: Seq<(Seq<char>, Seq<i128>)>, name: Seq<char>, match_time: i128) -> Seq<
    (Seq<char>, Seq<i128>),
>
    decreases v.len(),
{
    if v.len() == 0 {
        Seq::empty()
    } else {
        let rest = sniper_matches(v.drop_last(), name, match_time);
        let e = v.last();
        let kept = e.1.filter(near_match(match_time));
        if resembles(e.0, name) && kept.len() > 0 {
            rest.push((e.0, kept))
        } else {
            rest
        }
    }
}

/// Every instant is near the match start: the minutes `jiff` reports
/// between two instants are always zero.
proof fn lemma_near_match_keeps_all(s: Seq<i128>, match_time: i128)
    ensures
        s.filter(near_match(match_time)) == s,
    decreases s.len(),
{
    reveal(Seq::filter);
    if s.len() > 0 {
        lemma_near_match_keeps_all(s.drop_last(), match_time);
        assert(near_match(match_time)(s.last()));
        assert(s.drop_last().push(s.last()) =~= s);
    } else {
        assert(s.filter(near_match(match_time)) =~= s);
    }
}

/// The stream snipers found are exactly the viewers whose names resemble the
/// player's and who were in the chat near the match start, each with every
/// instant recorded for them that lies in the match window (which, as
/// `jiff` counts the minutes, is every instant recorded for them).
pub proof fn law_sniper_report(v: Seq<(Seq<char>, Seq<i128>)>, name: Seq<char>, match_time: i128)
    ensures
        ({
            let found = sniper_matches(v, name, match_time);
            &&& forall|i: int|
                0 <= i < found.len() ==> exists|j: int|
                    0 <= j < v.len() && v[j].0 == (#[trigger] found[i]).0 && resembles(found[i].0, name)
                        && found[i].1 == v[j].1.filter(near_match(match_time)) && found[i].1 == v[j].1
                        && found[i].1.len() > 0
            &&& forall|j: int|
                0 <= j < v.len() && resembles(v[j].0, name) && (#[trigger] v[j]).1.len() > 0 ==> exists|i: int|
                    0 <= i < found.len() && #[trigger] found[i] == v[j]
        }),
    decreases v.len(),
{
    let found = sniper_matches(v, name, match_time);
    if v.len() > 0 {
        let d = v.drop_last();
        law_sniper_report(d, name, match_time);
        let rest = sniper_matches(d, name, match_time);
        let e = v.last();
        lemma_near_match_keeps_all(e.1, match_time);
        assert forall|i: int| 0 <= i < found.len() implies exists|j: int|
            0 <= j < v.len() && v[j].0 == (#[trigger] found[i]).0 && resembles(found[i].0, name) && found[i].1
                == v[j].1.filter(near_match(match_time)) && found[i].1 == v[j].1 && found[i].1.len() > 0 by {
            if i < rest.len() {
                assert(found[i] == rest[i]);
                let j = choose|j: int|
                    0 <= j < d.len() && d[j].0 == (#[trigger] rest[i]).0 && resembles(rest[i].0, name) && rest[i].1
                        == d[j].1.filter(near_match(match_time)) && rest[i].1 == d[j].1 && rest[i].1.len() > 0;
                assert(v[j] == d[j]);
            } else {
                assert(found[i] == (e.0, e.1.filter(near_match(match_time))));
                assert(v[v.len() - 1] == e);
            }
        }
        assert forall|j: int| 0 <= j < v.len() && resembles(v[j].0, name) && (#[trigger] v[j]).1.len() > 0 implies exists|
            i: int,
        | 0 <= i < found.len() && #[trigger] found[i] == v[j] by {
            if j < d.len() {
                assert(v[j] == d[j]);
                let i = choose|i: int| 0 <= i < rest.len() && #[trigger] rest[i] == d[j];
                assert(found[i] == rest[i]);
            } else {
                assert(v[j] == e);
                assert(found[rest.len() as int] == (e.0, e.1));
            }
        }
    }
}

/// Whether the viewer name `viewer` resembles the player name `name`.
pub fn resembles_name(viewer: &str, name: &str) -> (r: bool)
    ensures
        r == resembles(viewer@, name@),
{
    let name_chars = chars_of(name);
    if utf8_len_exceeds(&name_chars, 5) && levenshtein_distance(viewer, name) <= 3 {
        return true;
    }
    let viewer_chars = chars_of(viewer);
    let len = name_chars.len();
    let mut start: usize = 0;
    let ghost mut k: int = 0;
    while start < len
        invariant
            len == name_chars@.len(),
            name_chars@ == name@,
            viewer_chars@ == viewer@,
            !(utf8_len(name@) > 5 && edit_distance(viewer@, name@) <= 3),
            start == (if 5 * k <= len {
                5 * k
            } else {
                len as int
            }),
            start <= len,
            0 <= k <= chunk_count(name@),
            forall|j: int|
                0 <= j < k ==> !(utf8_len(#[trigger] name_chunk(name@, j)) > 5 && has_substring(
                    viewer@,
                    name_chunk(name@, j),
                )),
        decreases len - start,
    {
        let end = if len - start >= 5 {
            start + 5
        } else {
            len
        };
        let chunk = sub_chars(&name_chars, start, end);
        assert(chunk@ == name_chunk(name@, k));
        if utf8_len_exceeds(&chunk, 5) && contains_chars(&viewer_chars, &chunk) {
            return true;
        }
        start = end;
        proof {
            k = k + 1;
        }
    }
    assert forall|j: int| 0 <= j < chunk_count(name@) implies !(utf8_len(#[trigger] name_chunk(name@, j)) > 5
        && has_substring(viewer@, name_chunk(name@, j))) by {
        assert(j < k);
    }
    false
}

/// The instants of `ts` strictly after `cutoff`, in order.
fn instants_after(ts: &Vec<i128>, cutoff: i128) -> (r: Vec<i128>)
    ensures
        r@ == ts@.filter(after(cutoff)),
{
    let mut out: Vec<i128> = Vec::new();
    let mut i: usize = 0;
    while i < ts.len()
        invariant
            i <= ts@.len(),
            out@ == ts@.take(i as int).filter(after(cutoff)),
        decreases ts@.len() - i,
    {
        proof {
            reveal(Seq::filter);
            assert(ts@.take(i + 1).drop_last() =~= ts@.take(i as int));
            assert(ts@.take(i + 1).last() == ts@[i as int]);
        }
        if ts[i] > cutoff {
            out.push(ts[i]);
        }
        i = i + 1;
    }
    assert(ts@.take(ts@.len() as int) =~= ts@);
    out
}

/// The instants of `ts` near the match start, in order.
fn instants_near(ts: &Vec<i128>, match_time: i128) -> (r: Vec<i128>)
    requires
        valid_instant(match_time),
        forall|k: int| 0 <= k < ts@.len() ==> valid_instant(#[trigger] ts@[k]),
    ensures
        r@ == ts@.filter(near_match(match_time)),
{
    let mut out: Vec<i128> = Vec::new();
    let mut i: usize = 0;
    while i < ts.len()
        invariant
            i <= ts@.len(),
            valid_instant(match_time),
            forall|k: int| 0 <= k < ts@.len() ==> valid_instant(#[trigger] ts@[k]),
            out@ == ts@.take(i as int).filter(near_match(match_time)),
        decreases ts@.len() - i,
    {
        proof {
            reveal(Seq::filter);
            assert(ts@.take(i + 1).drop_last() =~= ts@.take(i as int));
            assert(ts@.take(i + 1).last() == ts@[i as int]);
        }
        let minutes = timestamp_minutes_between(ts[i], match_time);
        if minutes < 20 && minutes > -2 {
            out.push(ts[i]);
        }
        i = i + 1;
    }
    assert(ts@.take(ts@.len() as int) =~= ts@);
    out
}

/// Keeping part of a strictly increasing sequence keeps it strictly
/// increasing, and keeps only its elements.
proof fn lemma_filter_increasing(s: Seq<i128>, p: spec_fn(i128) -> bool)
    requires
        strictly_increasing(s),
    ensures
        strictly_increasing(s.filter(p)),
        forall|t: i128| #[trigger] s.filter(p).contains(t) ==> s.contains(t),
    decreases s.len(),
{
    reveal(Seq::filter);
    if s.len() > 0 {
        let rest = s.drop_last();
        assert forall|i: int, j: int| 0 <= i < j < rest.len() implies #[trigger] rest[i] < #[trigger] rest[j] by {
            assert(s[i] < s[j]);
        }
        lemma_filter_increasing(rest, p);
        let f = rest.filter(p);
        assert forall|i: int| 0 <= i < f.len() implies #[trigger] f[i] < s.last() by {
            assert(f.contains(f[i]));
            assert(rest.contains(f[i]));
            let k = choose|k: int| 0 <= k < rest.len() && rest[k] == f[i];
            assert(s[k] < s[s.len() - 1]);
        }
        assert forall|t: i128| s.filter(p).contains(t) implies s.contains(t) by {
            if p(s.last()) && t == s.last() {
                assert(s[s.len() - 1] == t);
            } else {
                assert(f.contains(t));
                assert(rest.contains(t));
                let k = choose|k: int| 0 <= k < rest.len() && rest[k] == t;
                assert(s[k] == t);
            }
        }
    }
}

/// `after` is `before` with `name` recorded in the chat at `now`: the
/// instants of `name` are its earlier instants and `now`, in order, and no
/// other participant changed.
pub open spec fn chatter_recorded(
    before: Seq<(Seq<char>, Seq<i128>)>,
    after: Seq<(Seq<char>, Seq<i128>)>,
    name: Seq<char>,
    now: i128,
) -> bool {
    &&& timestamps_of(after, name) matches Some(ts) && strictly_increasing(ts) && forall|t: i128|
        ts.contains(t) <==> (known_instants(before, name).contains(t) || t == now)
    &&& forall|n: Seq<char>| n != name ==> #[trigger] timestamps_of(after, n) == timestamps_of(before, n)
}

/// Recording a participant a second time at the same instant changes no
/// participant's instants.
pub proof fn law_record_chatter_idempotent(
    v0: Seq<(Seq<char>, Seq<i128>)>,
    v1: Seq<(Seq<char>, Seq<i128>)>,
    v2: Seq<(Seq<char>, Seq<i128>)>,
    name: Seq<char>,
    now: i128,
)
    requires
        chatter_recorded(v0, v1, name, now),
        chatter_recorded(v1, v2, name, now),
    ensures
        forall|n: Seq<char>, t: i128| #[trigger] known_instants(v2, n).contains(t) <==> known_instants(v1, n).contains(t),
{
    assert forall|n: Seq<char>, t: i128| #[trigger] known_instants(v2, n).contains(t) <==> known_instants(v1, n).contains(t) by {
        if n != name {
            assert(timestamps_of(v2, n) == timestamps_of(v1, n));
        }
    }
}

/// Keeping part of a sequence twice keeps the same part.
proof fn lemma_filter_twice(s: Seq<i128>, p: spec_fn(i128) -> bool)
    ensures
        s.filter(p).filter(p) == s.filter(p),
    decreases s.len(),
{
    reveal(Seq::filter);
    if s.len() > 0 {
        lemma_filter_twice(s.drop_last(), p);
        let f = s.drop_last().filter(p);
        if p(s.last()) {
            assert(f.push(s.last()).drop_last() =~= f);
            assert(f.push(s.last()).last() == s.last());
        }
    }
}

/// Forgetting old instants twice forgets no more than once.
pub proof fn law_forget_idempotent(instants: Seq<i128>, cutoff: i128)
    ensures
        instants.filter(after(cutoff)).filter(after(cutoff)) == instants.filter(after(cutoff)),
{
    lemma_filter_twice(instants, after(cutoff));
}

proof fn lemma_edit_distance_self(a: Seq<char>)
    ensures
        edit_distance(a, a) == 0,
    decreases a.len(),
{
    if a.len() > 0 {
        lemma_edit_distance_self(a.drop_last());
    }
}

/// A viewer whose name is the player's name, longer than five bytes,
/// resembles the player.
pub proof fn law_same_name_resembles(name: Seq<char>)
    requires
        utf8_len(name) > 5,
    ensures
        resembles(name, name),
{
    lemma_edit_distance_self(name);
}

impl Participants {
    pub closed spec fn view_entries(&self) -> Seq<(Seq<char>, Seq<i128>)> {
        self.entries@.map_values(|e: (String, Vec<i128>)| entry_view(e))
    }

    /// Each name occurs once; each name's instants are valid and kept as a
    /// strictly increasing sequence.
    pub open spec fn wf(&self) -> bool {
        let v = self.view_entries();
        &&& forall|i: int, j: int| 0 <= i < j < v.len() ==> #[trigger] v[i].0 != #[trigger] v[j].0
        &&& forall|i: int| 0 <= i < v.len() ==> strictly_increasing(#[trigger] v[i].1)
        &&& forall|i: int, k: int| 0 <= i < v.len() && 0 <= k < v[i].1.len() ==> valid_instant(#[trigger] v[i].1[k])
    }

    pub fn new() -> (r: Participants)
        ensures
            r.wf(),
            r.view_entries() == Seq::<(Seq<char>, Seq<i128>)>::empty(),
    {
        let r = Participants { entries: Vec::new() };
        assert(r.view_entries() =~= Seq::<(Seq<char>, Seq<i128>)>::empty());
        r
    }

    /// Where `name` stands among the participants.
    fn position_of(&self, name: &str) -> (r: Option<usize>)
        ensures
            match r {
                Some(i) => i < self.view_entries().len() && self.view_entries()[i as int].0 == name@,
                None => forall|k: int| 0 <= k < self.view_entries().len() ==> (#[trigger] self.view_entries()[k]).0 != name@,
            },
    {
        let key = chars_of(name);
        let mut i: usize = 0;
        while i < self.entries.len()
            invariant
                i <= self.entries@.len(),
                key@ == name@,
                forall|k: int| 0 <= k < i ==> (#[trigger] self.view_entries()[k]).0 != name@,
            decreases self.entries@.len() - i,
        {
            let other = chars_of(self.entries[i].0.as_str());
            proof {
                crate::text::lemma_lex_equal(other@, key@);
                assert(self.view_entries()[i as int] == entry_view(self.entries@[i as int]));
            }
            if compare_chars(&other, &key) == 0 {
                return Some(i);
            }
            i = i + 1;
        }
        None
    }

    /// Records that `name` was in the chat at `now`.
    pub fn record_chatter(&mut self, name: &str, now: i128)
        requires
            old(self).wf(),
            valid_instant(now),
        ensures
            final(self).wf(),
            chatter_recorded(old(self).view_entries(), final(self).view_entries(), name@, now),
    {
        let ghost old_view = self.view_entries();
        let found = self.position_of(name);
        if let Some(i) = found {
            let entry = self.entries.remove(i);
            let (entry_name, instants) = entry;
            proof {
                assert(old_view[i as int].1 == instants@);
                assert(old_view[i as int].0 == name@);
            }
            let updated = insert_instant(instants, now);
            self.entries.insert(i, (entry_name, updated));
            proof {
                let v = self.view_entries();
                assert(v =~= old_view.update(i as int, (name@, updated@)));
                assert forall|a: int, k: int| 0 <= a < v.len() && 0 <= k < v[a].1.len() implies valid_instant(
                    #[trigger] v[a].1[k],
                ) by {
                    if a == i {
                        assert(updated@.contains(updated@[k]));
                        if updated@[k] != now {
                            let j = choose|j: int| 0 <= j < old_view[a].1.len() && old_view[a].1[j] == updated@[k];
                            assert(valid_instant(old_view[a].1[j]));
                        }
                    } else {
                        assert(v[a] == old_view[a]);
                    }
                }
                lemma_timestamps_of_at(old_view, i as int);
                lemma_timestamps_of_at(v, i as int);
                assert forall|n: Seq<char>| n != name@ implies #[trigger] timestamps_of(v, n)
                    == timestamps_of(old_view, n) by {
                    if exists|k: int| 0 <= k < v.len() && v[k].0 == n {
                        let k = choose|k: int| 0 <= k < v.len() && v[k].0 == n;
                        lemma_timestamps_of_at(v, k);
                        assert(old_view[k] == v[k]);
                        lemma_timestamps_of_at(old_view, k);
                    } else {
                        lemma_timestamps_of_absent(v, n);
                        assert forall|a: int| 0 <= a < old_view.len() implies (#[trigger] old_view[a]).0 != n by {
                            if a != i {
                                assert(old_view[a] == v[a]);
                            }
                        }
                        lemma_timestamps_of_absent(old_view, n);
                    }
                }
            }
        } else {
            let mut instants: Vec<i128> = Vec::new();
            instants.push(now);
            self.entries.push((name.to_owned(), instants));
            proof {
                let v = self.view_entries();
                assert(v =~= old_view.push((name@, seq![now])));
                assert forall|a: int, k: int| 0 <= a < v.len() && 0 <= k < v[a].1.len() implies valid_instant(
                    #[trigger] v[a].1[k],
                ) by {
                    if a < old_view.len() {
                        assert(v[a] == old_view[a]);
                    }
                }
                lemma_timestamps_of_absent(old_view, name@);
                lemma_timestamps_of_at(v, old_view.len() as int);
                assert(seq![now][0] == now);
                assert(seq![now].contains(now));
                assert forall|n: Seq<char>| n != name@ implies #[trigger] timestamps_of(v, n)
                    == timestamps_of(old_view, n) by {
                    if exists|k: int| 0 <= k < old_view.len() && old_view[k].0 == n {
                        let k = choose|k: int| 0 <= k < old_view.len() && old_view[k].0 == n;
                        lemma_timestamps_of_at(v, k);
                        lemma_timestamps_of_at(old_view, k);
                    } else {
                        lemma_timestamps_of_absent(old_view, n);
                        lemma_timestamps_of_absent(v, n);
                    }
                }
            }
        }
    }

    /// Records that each of `names` was in the chat at `now`.
    pub fn record_chatters(&mut self, names: &Vec<String>, now: i128)
        requires
            old(self).wf(),
            valid_instant(now),
        ensures
            final(self).wf(),
            forall|n: Seq<char>, t: i128|
                #[trigger] known_instants(final(self).view_entries(), n).contains(t) <==> (known_instants(
                    old(self).view_entries(),
                    n,
                ).contains(t) || (names@.map_values(|s: String| s@).contains(n) && t == now)),
            forall|n: Seq<char>|
                #[trigger] timestamps_of(final(self).view_entries(), n) is Some <==> (timestamps_of(
                    old(self).view_entries(),
                    n,
                ) is Some || names@.map_values(|s: String| s@).contains(n)),
    {
        let ghost v0 = self.view_entries();
        let ghost nv = names@.map_values(|s: String| s@);
        let mut i: usize = 0;
        while i < names.len()
            invariant
                self.wf(),
                valid_instant(now),
                i <= names@.len(),
                nv == names@.map_values(|s: String| s@),
                forall|n: Seq<char>, t: i128|
                    #[trigger] known_instants(self.view_entries(), n).contains(t) <==> (known_instants(v0, n).contains(t)
                        || (nv.take(i as int).contains(n) && t == now)),
                forall|n: Seq<char>|
                    #[trigger] timestamps_of(self.view_entries(), n) is Some <==> (timestamps_of(v0, n) is Some
                        || nv.take(i as int).contains(n)),
            decreases names@.len() - i,
        {
            let ghost before = self.view_entries();
            self.record_chatter(names[i].as_str(), now);
            proof {
                let name = names@[i as int]@;
                let after = self.view_entries();
                assert(nv[i as int] == name);
                assert(nv.take(i + 1) =~= nv.take(i as int).push(name));
                assert forall|n: Seq<char>| nv.take(i + 1).contains(n) <==> (nv.take(i as int).contains(n) || n == name) by {
                    if nv.take(i + 1).contains(n) {
                        let k = choose|k: int| 0 <= k < i + 1 && #[trigger] nv.take(i + 1)[k] == n;
                        if k < i {
                            assert(nv.take(i as int)[k] == n);
                        }
                    }
                    if nv.take(i as int).contains(n) {
                        let k = choose|k: int| 0 <= k < i && #[trigger] nv.take(i as int)[k] == n;
                        assert(nv.take(i + 1)[k] == n);
                    }
                    if n == name {
                        assert(nv.take(i + 1)[i as int] == n);
                    }
                }
                assert forall|n: Seq<char>, t: i128|
                    #[trigger] known_instants(after, n).contains(t) <==> (known_instants(v0, n).contains(t) || (nv.take(
                        i + 1,
                    ).contains(n) && t == now)) by {
                    assert(known_instants(before, n).contains(t) == (known_instants(v0, n).contains(t) || (nv.take(
                        i as int,
                    ).contains(n) && t == now)));
                    if n != name {
                        assert(timestamps_of(after, n) == timestamps_of(before, n));
                    }
                }
                assert forall|n: Seq<char>|
                    #[trigger] timestamps_of(after, n) is Some <==> (timestamps_of(v0, n) is Some || nv.take(
                        i + 1,
                    ).contains(n)) by {
                    if n != name {
                        assert(timestamps_of(after, n) == timestamps_of(before, n));
                    }
                }
            }
            i = i + 1;
        }
        assert(nv.take(names@.len() as int) =~= nv);
    }

    /// Forgets every instant that is not within the last thirty minutes
    /// before `now`; participants stay listed, possibly with no instant.
    pub fn forget_older_than(&mut self, now: i128)
        requires
            old(self).wf(),
            valid_instant(now),
            valid_instant((now - MEMORY_WINDOW_NANOS) as i128),
        ensures
            final(self).wf(),
            final(self).view_entries().len() == old(self).view_entries().len(),
            forall|i: int|
                0 <= i < old(self).view_entries().len() ==> (#[trigger] final(self).view_entries()[i]).0 == old(
                    self,
                ).view_entries()[i].0 && final(self).view_entries()[i].1 == old(self).view_entries()[i].1.filter(
                    after((now - MEMORY_WINDOW_NANOS) as i128),
                ),
    {
        let ghost old_view = self.view_entries();
        let cutoff = now - MEMORY_WINDOW_NANOS;
        let mut kept: Vec<(String, Vec<i128>)> = Vec::new();
        let mut i: usize = 0;
        while i < self.entries.len()
            invariant
                old_view == self.view_entries(),
                cutoff == (now - MEMORY_WINDOW_NANOS) as i128,
                i <= self.entries@.len(),
                kept@.len() == i,
                forall|k: int|
                    0 <= k < i ==> (#[trigger] entry_view(kept@[k])).0 == old_view[k].0 && entry_view(kept@[k]).1
                        == old_view[k].1.filter(after(cutoff)),
            decreases self.entries@.len() - i,
        {
            proof {
                assert(old_view[i as int] == entry_view(self.entries@[i as int]));
            }
            let name = self.entries[i].0.clone();
            let instants = instants_after(&self.entries[i].1, cutoff);
            kept.push((name, instants));
            proof {
                assert(entry_view(kept@[i as int]) == (old_view[i as int].0, old_view[i as int].1.filter(after(cutoff))));
            }
            i = i + 1;
        }
        self.entries = kept;
        proof {
            let v = self.view_entries();
            assert(v.len() == old_view.len());
            assert forall|a: int| 0 <= a < v.len() implies (#[trigger] v[a]).0 == old_view[a].0 && v[a].1
                == old_view[a].1.filter(after(cutoff)) by {
                assert(v[a] == entry_view(self.entries@[a]));
            }
            assert forall|a: int| 0 <= a < v.len() implies strictly_increasing(#[trigger] v[a].1) by {
                lemma_filter_increasing(old_view[a].1, after(cutoff));
            }
            assert forall|a: int, k: int| 0 <= a < v.len() && 0 <= k < v[a].1.len() implies valid_instant(
                #[trigger] v[a].1[k],
            ) by {
                lemma_filter_increasing(old_view[a].1, after(cutoff));
                assert(v[a].1.contains(v[a].1[k]));
                assert(old_view[a].1.contains(v[a].1[k]));
                let j = choose|j: int| 0 <= j < old_view[a].1.len() && old_view[a].1[j] == v[a].1[k];
                assert(valid_instant(old_view[a].1[j]));
            }
            assert forall|a: int, b: int| 0 <= a < b < v.len() implies #[trigger] v[a].0 != #[trigger] v[b].0 by {
                assert(old_view[a].0 != old_view[b].0);
            }
        }
    }

    /// The viewers who may be watching the stream to follow the player
    /// `name`: those whose names resemble it, each with the instants at which
    /// they were in the chat around `match_time`. `None` when there is none.
    pub fn potential_stream_snipers(&self, name: &str, match_time: i128) -> (r: Option<
        Vec<(String, Vec<i128>)>,
    >)
        requires
            self.wf(),
            valid_instant(match_time),
        ensures
            match r {
                None => sniper_matches(self.view_entries(), name@, match_time).len() == 0,
                Some(found) => found@.len() > 0 && found@.map_values(|e: (String, Vec<i128>)| entry_view(e))
                    == sniper_matches(self.view_entries(), name@, match_time),
            },
    {
        let ghost v = self.view_entries();
        let mut found: Vec<(String, Vec<i128>)> = Vec::new();
        let mut i: usize = 0;
        while i < self.entries.len()
            invariant
                self.wf(),
                v == self.view_entries(),
                valid_instant(match_time),
                i <= self.entries@.len(),
                found@.map_values(|e: (String, Vec<i128>)| entry_view(e)) == sniper_matches(
                    v.take(i as int),
                    name@,
                    match_time,
                ),
            decreases self.entries@.len() - i,
        {
            proof {
                assert(v[i as int] == entry_view(self.entries@[i as int]));
                assert(v.take(i + 1).drop_last() =~= v.take(i as int));
                assert(v.take(i + 1).last() == v[i as int]);
                assert forall|k: int| 0 <= k < self.entries@[i as int].1@.len() implies valid_instant(
                    #[trigger] self.entries@[i as int].1@[k],
                ) by {
                    assert(valid_instant(v[i as int].1[k]));
                }
            }
            let viewer = &self.entries[i].0;
            if resembles_name(viewer.as_str(), name) {
                let kept = instants_near(&self.entries[i].1, match_time);
                if kept.len() > 0 {
                    let ghost before = found@;
                    found.push((viewer.clone(), kept));
                    proof {
                        assert(found@ == before.push(found@[found@.len() - 1]));
                        assert(found@.map_values(|e: (String, Vec<i128>)| entry_view(e)) =~= before.map_values(
                            |e: (String, Vec<i128>)| entry_view(e),
                        ).push(entry_view(found@[found@.len() - 1])));
                    }
                }
            }
            i = i + 1;
        }
        assert(v.take(v.len() as int) =~= v);
        if found.len() == 0 {
            None
        } else {
            Some(found)
        }
    }

    /// The participants and their instants.
    pub fn entries(&self) -> (r: &Vec<(String, Vec<i128>)>)
        ensures
            r@.map_values(|e: (String, Vec<i128>)| entry_view(e)) == self.view_entries(),
    {
        &self.entries
    }
}


/// `after` is `before` with each of `names` recorded in the chat at `now`.
pub open spec fn chatters_recorded(
    before: Seq<(Seq<char>, Seq<i128>)>,
    after: Seq<(Seq<char>, Seq<i128>)>,
    names: Seq<Seq<char>>,
    now: i128,
) -> bool {
    &&& forall|n: Seq<char>, t: i128|
        #[trigger] known_instants(after, n).contains(t) <==> (known_instants(before, n).contains(t) || (names.contains(n)
            && t == now))
    &&& forall|n: Seq<char>|
        #[trigger] timestamps_of(after, n) is Some <==> (timestamps_of(before, n) is Some || names.contains(n))
}

/// `after` is `before` with the instants older than the memory window
/// before `now` dropped.
pub open spec fn forgotten(before: Seq<(Seq<char>, Seq<i128>)>, later: Seq<(Seq<char>, Seq<i128>)>, now: i128) -> bool {
    &&& later.len() == before.len()
    &&& forall|i: int|
        0 <= i < before.len() ==> (#[trigger] later[i]).0 == before[i].0 && later[i].1 == before[i].1.filter(
            after((now - MEMORY_WINDOW_NANOS) as i128),
        )
}

pub open spec fn opt_text(o: Option<String>) -> Option<Seq<char>> {
    match o {
        Some(s) => Some(s@),
        None => None,
    }
}

/// What the watch over a channel's chat asks of the application next.
#[derive(Debug)]
pub enum WatchAction {
    /// Exchange the credentials the application holds for a user token,
    /// then report the user id of the token in effect.
    UpdateToken,
    /// Report the user id of the token in effect.
    ReadToken,
    /// Look up the user with this login name.
    LookUpUser(String),
    /// Fetch the chatters of the channel of the user with this id.
    FetchChatters(String),
    /// Read the clock.
    ReadClock,
    /// Wait for the next tick or update.
    Wait,
}

/// What happened since the watch's last action.
#[derive(Debug)]
pub enum WatchEvent {
    /// The user id of the token in effect; `None` without a token.
    TokenState(Option<String>),
    /// The id of the user a lookup found; `None` when none was found or the
    /// lookup failed.
    UserFound(Option<String>),
    /// The chatters fetched at `now` (nanoseconds since the Unix epoch);
    /// `None` when the fetch failed.
    Chatters(Option<Vec<String>>, i128),
    /// The time, in nanoseconds since the Unix epoch.
    Clock(i128),
    /// The two-minute tick, with the user id of the token in effect.
    Tick(Option<String>),
    /// New credentials arrived; whether the token in effect until now was
    /// still valid.
    TokenChanged(bool),
    /// Another channel to watch, by login name, with the user id of the
    /// token in effect.
    UserChanged(String, Option<String>),
    /// The updates channel is closed.
    NoUpdate,
}

/// The action looks up the user with this login name.
pub open spec fn looks_up(a: WatchAction, login: Seq<char>) -> bool {
    match a {
        WatchAction::LookUpUser(l) => l@ == login,
        _ => false,
    }
}

/// The action fetches the chatters of the channel of this user id.
pub open spec fn fetches(a: WatchAction, user_id: Seq<char>) -> bool {
    match a {
        WatchAction::FetchChatters(u) => u@ == user_id,
        _ => false,
    }
}

/// Chatters fetched at an instant in range.
pub open spec fn chatters_in_range(event: WatchEvent) -> bool {
    match event {
        WatchEvent::Chatters(_, now) => valid_instant(now),
        _ => false,
    }
}

/// A clock reading from which the memory window can be subtracted.
pub open spec fn clock_in_range(event: WatchEvent) -> bool {
    match event {
        WatchEvent::Clock(now) => valid_instant(now) && valid_instant((now - MEMORY_WINDOW_NANOS) as i128),
        _ => false,
    }
}

/// How one step of the watch changes the participants: fetched chatters
/// are recorded at the fetch's instant, a clock reading forgets what is
/// older than the memory window, and nothing else changes them.
pub open spec fn participants_step(
    before: Seq<(Seq<char>, Seq<i128>)>,
    later: Seq<(Seq<char>, Seq<i128>)>,
    event: WatchEvent,
) -> bool {
    match event {
        WatchEvent::Chatters(Some(names), now) => chatters_recorded(before, later, names@.map_values(|s: String| s@), now),
        WatchEvent::Clock(now) => forgotten(before, later, now),
        _ => later == before,
    }
}

/// The event records `name` in the chat at `t`.
pub open spec fn records_at(event: WatchEvent, name: Seq<char>, t: i128) -> bool {
    match event {
        WatchEvent::Chatters(Some(names), now) => now == t && names@.map_values(|s: String| s@).contains(name),
        _ => false,
    }
}

/// Where the watch stands.
#[derive(Debug)]
pub enum WatchStage {
    /// Waiting for the token in effect at the start.
    Starting,
    /// Waiting for a user lookup; the clock is read afterwards when
    /// `then_sweep`, otherwise the watch waits.
    LookingUp { then_sweep: bool },
    Idle,
    /// Waiting for new credentials to take effect.
    TokenUpdating { had_valid_token: bool },
    /// Waiting for the chatters; afterwards the channel of the token's user
    /// with this id is watched again, when there is one.
    Fetching { rewatch: Option<String> },
    /// Waiting for the clock, to forget old instants.
    Sweeping,
}

/// The watch over the chat of a channel: every two minutes, and when new
/// credentials arrive, the chatters of the watched channel are recorded;
/// instants older than the memory window are forgotten after every tick or
/// update.
#[derive(Debug)]
pub struct TwitchWatch {
    /// The login name of the channel to watch; empty for the user's own.
    pub channel: String,
    /// The id of the user whose channel is watched.
    pub monitored_user_id: Option<String>,
    pub participants: Participants,
    pub stage: WatchStage,
}

impl TwitchWatch {
    pub open spec fn wf(&self) -> bool {
        self.participants.wf()
    }

    /// The event answers the action the stage waits on.
    pub open spec fn expects(&self, event: WatchEvent) -> bool {
        match self.stage {
            WatchStage::Starting => event is TokenState,
            WatchStage::LookingUp { .. } => event is UserFound,
            WatchStage::Idle => event is Tick || event is TokenChanged || event is UserChanged || event is NoUpdate,
            WatchStage::TokenUpdating { .. } => event is TokenState,
            WatchStage::Fetching { .. } => chatters_in_range(event),
            WatchStage::Sweeping => clock_in_range(event),
        }
    }

    /// Starts watching `channel`: with new credentials, they take effect
    /// first; otherwise the token in effect is read.
    pub fn begin(channel: String, new_credentials: bool) -> (r: (TwitchWatch, WatchAction))
        ensures
            r.0.wf(),
            r.0.channel@ == channel@,
            r.0.monitored_user_id is None,
            r.0.participants.view_entries() == Seq::<(Seq<char>, Seq<i128>)>::empty(),
            r.0.stage is Starting,
            if new_credentials {
                r.1 is UpdateToken
            } else {
                r.1 is ReadToken
            },
    {
        let watch = TwitchWatch {
            channel,
            monitored_user_id: None,
            participants: Participants::new(),
            stage: WatchStage::Starting,
        };
        if new_credentials {
            (watch, WatchAction::UpdateToken)
        } else {
            (watch, WatchAction::ReadToken)
        }
    }

    /// Watches the channel of the token's user, or the configured channel
    /// when there is one and a token to look it up with.
    fn rewatch(&mut self, user_id: Option<String>, then_sweep: bool) -> (r: WatchAction)
        ensures
            final(self).channel == old(self).channel,
            final(self).participants == old(self).participants,
            opt_text(final(self).monitored_user_id) == opt_text(user_id),
            if old(self).channel@.len() > 0 && user_id is Some {
                final(self).stage == (WatchStage::LookingUp { then_sweep }) && looks_up(r, old(self).channel@)
            } else if then_sweep {
                final(self).stage is Sweeping && r is ReadClock
            } else {
                final(self).stage is Idle && r is Wait
            },
    {
        let has_token = user_id.is_some();
        self.monitored_user_id = user_id;
        if !self.channel.as_str().is_empty() && has_token {
            self.stage = WatchStage::LookingUp { then_sweep };
            WatchAction::LookUpUser(self.channel.clone())
        } else if then_sweep {
            self.stage = WatchStage::Sweeping;
            WatchAction::ReadClock
        } else {
            self.stage = WatchStage::Idle;
            WatchAction::Wait
        }
    }

    /// Takes the outcome of the last action. At the start, the channel of
    /// the token's user is watched, or the configured channel when a lookup
    /// finds it. On each tick the chatters are fetched when there is a token
    /// and a channel. New credentials take effect, the chatters are fetched,
    /// and without a valid token before, the watched channel is chosen
    /// again as at the start. Another channel is watched when a lookup
    /// finds it. After a tick or an update, instants older than the memory
    /// window are forgotten.
    pub fn step(&mut self, event: WatchEvent) -> (r: WatchAction)
        requires
            old(self).wf(),
            old(self).expects(event),
        ensures
            final(self).wf(),
            final(self).channel == old(self).channel,
            participants_step(old(self).participants.view_entries(), final(self).participants.view_entries(), event),
            old(self).stage is Sweeping ==> within_window(event, final(self).participants.view_entries()),
            match (old(self).stage, event) {
                (WatchStage::Starting, WatchEvent::TokenState(uid)) => opt_text(final(self).monitored_user_id)
                    == opt_text(uid) && if old(self).channel@.len() > 0 && uid is Some {
                    final(self).stage == (WatchStage::LookingUp { then_sweep: false }) && looks_up(r, old(self).channel@)
                } else {
                    final(self).stage is Idle && r is Wait
                },
                (WatchStage::LookingUp { then_sweep }, WatchEvent::UserFound(found)) => opt_text(
                    final(self).monitored_user_id,
                ) == (if found is Some {
                    opt_text(found)
                } else {
                    opt_text(old(self).monitored_user_id)
                }) && if then_sweep {
                    final(self).stage is Sweeping && r is ReadClock
                } else {
                    final(self).stage is Idle && r is Wait
                },
                (WatchStage::Idle, WatchEvent::Tick(uid)) => final(self).monitored_user_id == old(self).monitored_user_id
                    && match (uid, old(self).monitored_user_id) {
                    (Some(_), Some(m)) => final(self).stage == (WatchStage::Fetching { rewatch: None }) && fetches(r, m@),
                    _ => final(self).stage is Sweeping && r is ReadClock,
                },
                (WatchStage::Idle, WatchEvent::TokenChanged(had_valid_token)) => final(self).monitored_user_id == old(
                    self,
                ).monitored_user_id && final(self).stage == (WatchStage::TokenUpdating { had_valid_token })
                    && r is UpdateToken,
                (WatchStage::Idle, WatchEvent::UserChanged(login, uid)) => final(self).monitored_user_id == old(
                    self,
                ).monitored_user_id && if uid is Some {
                    final(self).stage == (WatchStage::LookingUp { then_sweep: true }) && looks_up(r, login@)
                } else {
                    final(self).stage is Sweeping && r is ReadClock
                },
                (WatchStage::Idle, _) => final(self).monitored_user_id == old(self).monitored_user_id
                    && final(self).stage is Sweeping && r is ReadClock,
                (WatchStage::TokenUpdating { had_valid_token }, WatchEvent::TokenState(uid)) => match (
                    uid,
                    old(self).monitored_user_id,
                ) {
                    (Some(u), Some(m)) => final(self).monitored_user_id == old(self).monitored_user_id
                        && final(self).stage == (WatchStage::Fetching {
                        rewatch: if had_valid_token {
                            None
                        } else {
                            Some(u)
                        },
                    }) && fetches(r, m@),
                    _ => if had_valid_token {
                        final(self).monitored_user_id == old(self).monitored_user_id && final(self).stage is Sweeping
                            && r is ReadClock
                    } else {
                        opt_text(final(self).monitored_user_id) == opt_text(uid) && if old(self).channel@.len() > 0
                            && uid is Some {
                            final(self).stage == (WatchStage::LookingUp { then_sweep: true }) && looks_up(
                                r,
                                old(self).channel@,
                            )
                        } else {
                            final(self).stage is Sweeping && r is ReadClock
                        }
                    },
                },
                (WatchStage::Fetching { rewatch }, _) => match rewatch {
                    Some(u) => opt_text(final(self).monitored_user_id) == Some(u@) && if old(self).channel@.len() > 0 {
                        final(self).stage == (WatchStage::LookingUp { then_sweep: true }) && looks_up(
                            r,
                            old(self).channel@,
                        )
                    } else {
                        final(self).stage is Sweeping && r is ReadClock
                    },
                    None => final(self).monitored_user_id == old(self).monitored_user_id && final(self).stage is Sweeping
                        && r is ReadClock,
                },
                (WatchStage::Sweeping, _) => final(self).monitored_user_id == old(self).monitored_user_id
                    && final(self).stage is Idle && r is Wait,
                _ => false,
            },
    {
        let mut stage = WatchStage::Idle;
        std::mem::swap(&mut stage, &mut self.stage);
        match stage {
            WatchStage::Starting => {
                let uid = match event {
                    WatchEvent::TokenState(uid) => uid,
                    _ => None,
                };
                self.rewatch(uid, false)
            },
            WatchStage::LookingUp { then_sweep } => {
                if let WatchEvent::UserFound(Some(id)) = event {
                    self.monitored_user_id = Some(id);
                }
                if then_sweep {
                    self.stage = WatchStage::Sweeping;
                    WatchAction::ReadClock
                } else {
                    self.stage = WatchStage::Idle;
                    WatchAction::Wait
                }
            },
            WatchStage::Idle => match event {
                WatchEvent::Tick(uid) => {
                    if uid.is_some() && self.monitored_user_id.is_some() {
                        let m = self.monitored_user_id.clone().unwrap();
                        self.stage = WatchStage::Fetching { rewatch: None };
                        WatchAction::FetchChatters(m)
                    } else {
                        self.stage = WatchStage::Sweeping;
                        WatchAction::ReadClock
                    }
                },
                WatchEvent::TokenChanged(had_valid_token) => {
                    self.stage = WatchStage::TokenUpdating { had_valid_token };
                    WatchAction::UpdateToken
                },
                WatchEvent::UserChanged(login, uid) => {
                    if uid.is_some() {
                        self.stage = WatchStage::LookingUp { then_sweep: true };
                        WatchAction::LookUpUser(login)
                    } else {
                        self.stage = WatchStage::Sweeping;
                        WatchAction::ReadClock
                    }
                },
                _ => {
                    self.stage = WatchStage::Sweeping;
                    WatchAction::ReadClock
                },
            },
            WatchStage::TokenUpdating { had_valid_token } => {
                let uid = match event {
                    WatchEvent::TokenState(uid) => uid,
                    _ => None,
                };
                match (uid, self.monitored_user_id.clone()) {
                    (Some(u), Some(m)) => {
                        self.stage = WatchStage::Fetching {
                            rewatch: if had_valid_token {
                                None
                            } else {
                                Some(u)
                            },
                        };
                        WatchAction::FetchChatters(m)
                    },
                    (uid, _) => {
                        if had_valid_token {
                            self.stage = WatchStage::Sweeping;
                            WatchAction::ReadClock
                        } else {
                            self.rewatch(uid, true)
                        }
                    },
                }
            },
            WatchStage::Fetching { rewatch } => {
                if let WatchEvent::Chatters(Some(names), now) = event {
                    self.participants.record_chatters(&names, now);
                }
                match rewatch {
                    Some(u) => self.rewatch(Some(u), true),
                    None => {
                        self.stage = WatchStage::Sweeping;
                        WatchAction::ReadClock
                    },
                }
            },
            WatchStage::Sweeping => {
                if let WatchEvent::Clock(now) = event {
                    let ghost before = self.participants.view_entries();
                    self.participants.forget_older_than(now);
                    proof {
                        lemma_forgotten_within(before, self.participants.view_entries(), now);
                    }
                }
                self.stage = WatchStage::Idle;
                WatchAction::Wait
            },
        }
    }
}


/// The minutes from the match start to each instant, as the minutes field
/// of `jiff`'s `Timestamp - Timestamp` gives them (always zero), rendered
/// as numbers.
pub open spec fn seen_minutes(ts: Seq<i128>, match_time: i128) -> Seq<Seq<char>> {
    ts.map_values(|t: i128| signed_decimal(span_minutes(t, match_time) as int))
}

/// The hover text of a viewer who may be following the player's stream:
/// "Seen " and the minutes, separated by ", ", then " minutes after match
/// start".
pub open spec fn spec_seen_text(ts: Seq<i128>, match_time: i128) -> Seq<char> {
    "Seen "@ + join(seen_minutes(ts, match_time), ", "@) + " minutes after match start"@
}

/// Renders when a possible stream sniper was in the chat.
pub fn seen_text(ts: &Vec<i128>, match_time: i128) -> (r: String)
    requires
        valid_instant(match_time),
        forall|k: int| 0 <= k < ts@.len() ==> valid_instant(#[trigger] ts@[k]),
    ensures
        r@ == spec_seen_text(ts@, match_time),
{
    let mut parts: Vec<String> = Vec::new();
    let mut i: usize = 0;
    while i < ts.len()
        invariant
            i <= ts@.len(),
            valid_instant(match_time),
            forall|k: int| 0 <= k < ts@.len() ==> valid_instant(#[trigger] ts@[k]),
            views(parts@) == seen_minutes(ts@.take(i as int), match_time),
        decreases ts@.len() - i,
    {
        assert(valid_instant(ts@[i as int]));
        let minutes = timestamp_minutes_between(ts[i], match_time);
        let text = signed_decimal_text(minutes);
        let ghost before = parts@;
        parts.push(text);
        proof {
            assert(ts@.take(i + 1) =~= ts@.take(i as int).push(ts@[i as int]));
            assert(views(parts@) =~= views(before).push(text@));
            assert(seen_minutes(ts@.take(i + 1), match_time) =~= seen_minutes(ts@.take(i as int), match_time).push(
                signed_decimal(span_minutes(ts@[i as int], match_time) as int),
            ));
        }
        i = i + 1;
    }
    assert(ts@.take(ts@.len() as int) =~= ts@);
    let joined = join_text(&parts, ", ");
    let head = concat_text("Seen ", joined.as_str());
    concat_text(head.as_str(), " minutes after match start")
}


/// Forgetting keeps every name, with its instants cut down to those within
/// the memory window.
proof fn lemma_forgotten_instants(
    before: Seq<(Seq<char>, Seq<i128>)>,
    later: Seq<(Seq<char>, Seq<i128>)>,
    now: i128,
    name: Seq<char>,
)
    requires
        forgotten(before, later, now),
    ensures
        match timestamps_of(before, name) {
            Some(ts) => timestamps_of(later, name) == Some(ts.filter(after((now - MEMORY_WINDOW_NANOS) as i128))),
            None => timestamps_of(later, name) is None,
        },
    decreases before.len(),
{
    if before.len() > 0 {
        assert(later[0].0 == before[0].0);
        if before[0].0 != name {
            let b = before.drop_first();
            let l = later.drop_first();
            assert forall|i: int| 0 <= i < b.len() implies (#[trigger] l[i]).0 == b[i].0 && l[i].1 == b[i].1.filter(
                after((now - MEMORY_WINDOW_NANOS) as i128),
            ) by {
                assert(l[i] == later[i + 1]);
                assert(b[i] == before[i + 1]);
            }
            lemma_forgotten_instants(b, l, now, name);
        }
    }
}

/// After the first `j` steps of a run from no participants, every
/// instant the watch holds for a name was recorded for that name by an
/// earlier fetch of the chatters, at that instant.
proof fn lemma_run_provenance(
    entries: Seq<Seq<(Seq<char>, Seq<i128>)>>,
    events: Seq<WatchEvent>,
    j: int,
)
    requires
        entries.len() == events.len() + 1,
        entries[0].len() == 0,
        forall|i: int| 0 <= i < events.len() ==> participants_step(entries[i], entries[i + 1], #[trigger] events[i]),
        0 <= j < entries.len(),
    ensures
        forall|n: Seq<char>, t: i128|
            #[trigger] known_instants(entries[j], n).contains(t) ==> exists|i: int|
                0 <= i < j && #[trigger] records_at(events[i], n, t),
    decreases j,
{
    if j == 0 {
        assert forall|n: Seq<char>, t: i128| #[trigger] known_instants(entries[j], n).contains(t) implies exists|i: int|
            0 <= i < j && #[trigger] records_at(events[i], n, t) by {
            assert(timestamps_of(entries[0], n) is None);
        }
    } else {
        lemma_run_provenance(entries, events, j - 1);
        let before = entries[j - 1];
        let later = entries[j];
        assert(participants_step(before, later, events[j - 1]));
        assert forall|n: Seq<char>, t: i128| #[trigger] known_instants(later, n).contains(t) implies exists|i: int|
            0 <= i < j && #[trigger] records_at(events[i], n, t) by {
            match events[j - 1] {
                WatchEvent::Chatters(Some(names), now) => {
                    if !known_instants(before, n).contains(t) {
                        assert(records_at(events[j - 1], n, t));
                    } else {
                        let i = choose|i: int| 0 <= i < j - 1 && #[trigger] records_at(events[i], n, t);
                        assert(records_at(events[i], n, t));
                    }
                },
                WatchEvent::Clock(now) => {
                    lemma_forgotten_instants(before, later, now, n);
                    match timestamps_of(before, n) {
                        Some(ts) => {
                            ts.lemma_filter_contains_rev(after((now - MEMORY_WINDOW_NANOS) as i128), t);
                        },
                        None => {},
                    }
                    assert(known_instants(before, n).contains(t));
                    let i = choose|i: int| 0 <= i < j - 1 && #[trigger] records_at(events[i], n, t);
                    assert(records_at(events[i], n, t));
                },
                _ => {
                    assert(later == before);
                    let i = choose|i: int| 0 <= i < j - 1 && #[trigger] records_at(events[i], n, t);
                    assert(records_at(events[i], n, t));
                },
            }
        }
    }
}

/// Every instant the participants hold after a clock reading is within the
/// memory window before that reading.
pub open spec fn within_window(event: WatchEvent, entries: Seq<(Seq<char>, Seq<i128>)>) -> bool {
    match event {
        WatchEvent::Clock(now) => forall|k: int, m: int|
            0 <= k < entries.len() && 0 <= m < entries[k].1.len() ==> #[trigger] entries[k].1[m] > now
                - MEMORY_WINDOW_NANOS,
        _ => true,
    }
}

/// After forgetting at `now`, every instant left is within the memory
/// window before `now`.
proof fn lemma_forgotten_within(before: Seq<(Seq<char>, Seq<i128>)>, later: Seq<(Seq<char>, Seq<i128>)>, now: i128)
    requires
        forgotten(before, later, now),
    ensures
        within_window(WatchEvent::Clock(now), later),
{
    let cutoff = (now - MEMORY_WINDOW_NANOS) as i128;
    assert forall|k: int, m: int| 0 <= k < later.len() && 0 <= m < later[k].1.len() implies #[trigger] later[k].1[m]
        > now - MEMORY_WINDOW_NANOS by {
        before[k].1.lemma_filter_pred(after(cutoff), m);
    }
}

/// The watch's memory over a whole run, from no participants through the
/// participants after each step: after each sweep, the last step of every
/// iteration (a tick or an update and its handling), every instant left is
/// within the memory window before the sweep's clock reading, and every
/// instant ever held for a name was recorded for that name, at that
/// instant, by an earlier fetch of the chatters of the watched channel.
pub proof fn law_watch_run(entries: Seq<Seq<(Seq<char>, Seq<i128>)>>, events: Seq<WatchEvent>)
    requires
        entries.len() == events.len() + 1,
        entries[0].len() == 0,
        forall|i: int| 0 <= i < events.len() ==> participants_step(entries[i], entries[i + 1], #[trigger] events[i]),
    ensures
        forall|i: int| 0 <= i < events.len() ==> within_window(#[trigger] events[i], entries[i + 1]),
        forall|j: int, n: Seq<char>, t: i128|
            0 <= j < entries.len() && #[trigger] known_instants(entries[j], n).contains(t) ==> exists|i: int|
                0 <= i < j && #[trigger] records_at(events[i], n, t),
{
    assert forall|i: int| 0 <= i < events.len() implies within_window(#[trigger] events[i], entries[i + 1]) by {
        assert(participants_step(entries[i], entries[i + 1], events[i]));
        match events[i] {
            WatchEvent::Clock(now) => {
                lemma_forgotten_within(entries[i], entries[i + 1], now);
            },
            _ => {},
        }
    }
    assert forall|j: int, n: Seq<char>, t: i128|
        0 <= j < entries.len() && #[trigger] known_instants(entries[j], n).contains(t) implies exists|i: int|
        0 <= i < j && #[trigger] records_at(events[i], n, t) by {
        lemma_run_provenance(entries, events, j);
    }
}

} // verus!
