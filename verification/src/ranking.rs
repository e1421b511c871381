//! Ranking of the users that a user interacted with: which rows count, how
//! often the phrase and the hashtag occur in them, which tweet is shown, and
//! the text of the answer.

use vstd::prelude::*;
use crate::decimal::{i64_to_decimal, int_to_decimal};
use crate::kmp::{count_occurrences, count_overlapping_substrings};
use crate::reply::{malformed_response, malformed_text};
use crate::text::{chars_to_string, lex_less, lowercase, same_text, string_less, to_lowercase};

verus! {

/// The kind of interaction a ranking is asked for.
#[derive(Clone, Copy, Debug, PartialEq, Eq, Structural)]
pub enum InteractionType {
    Reply,
    Retweet,
    Both,
}

/// The interaction named by `s`: `reply`, `retweet` or `both`.
pub open spec fn interaction_of(s: Seq<char>) -> Option<InteractionType> {
    if s == "reply"@ {
        Some(InteractionType::Reply)
    } else if s == "retweet"@ {
        Some(InteractionType::Retweet)
    } else if s == "both"@ {
        Some(InteractionType::Both)
    } else {
        None
    }
}

/// Reads the kind of interaction; `None` for any other text.
pub fn parse_interaction_type(s: &str) -> (r: Option<InteractionType>)
    ensures
        r == interaction_of(s@),
{
    if same_text(s, "reply") {
        Some(InteractionType::Reply)
    } else if same_text(s, "retweet") {
        Some(InteractionType::Retweet)
    } else if same_text(s, "both") {
        Some(InteractionType::Both)
    } else {
        None
    }
}

/// The phrase as it is searched for: in lower case.
pub fn lowercase_phrase(key_phrase: &str) -> (r: String)
    ensures
        r@ == lowercase(key_phrase@),
{
    to_lowercase(key_phrase)
}

/// What is known of the interactions of one user with another.
pub struct InteractionRow {
    pub to_user_id: i64,
    pub reply_aggregated_texts: Option<String>,
    pub retweet_aggregated_texts: Option<String>,
    pub reply_aggregated_hashtags: Option<String>,
    pub retweet_aggregated_hashtags: Option<String>,
    pub latest_retweet_text: Option<String>,
    pub latest_reply_text: Option<String>,
    pub latest_retweet_text_timestamp: Option<String>,
    pub latest_reply_text_timestamp: Option<String>,
    pub latest_screen_name: Option<String>,
    pub latest_description: Option<String>,
}

/// The text of an optional field, empty when absent.
pub open spec fn text_or_empty(o: Option<String>) -> Seq<char> {
    match o {
        Some(s) => s@,
        None => Seq::empty(),
    }
}

/// Occurrences of `phrase` in `texts` plus those of `hashtag` in `tags`.
pub open spec fn pair_matches(texts: Option<String>, tags: Option<String>, phrase: Seq<char>, hashtag: Seq<char>) -> int {
    (count_occurrences(phrase, text_or_empty(texts)) + count_occurrences(hashtag, text_or_empty(tags))) as int
}

/// Number of matches of a row, or `None` when the row does not take part:
/// for one kind of interaction, a row with neither texts nor hashtags of
/// that kind; for both kinds, every row takes part.
pub open spec fn row_matches(kind: InteractionType, row: InteractionRow, phrase: Seq<char>, hashtag: Seq<char>) -> Option<int> {
    match kind {
        InteractionType::Reply => if row.reply_aggregated_texts is None && row.reply_aggregated_hashtags is None {
            None
        } else {
            Some(pair_matches(row.reply_aggregated_texts, row.reply_aggregated_hashtags, phrase, hashtag))
        },
        InteractionType::Retweet => if row.retweet_aggregated_texts is None && row.retweet_aggregated_hashtags is None {
            None
        } else {
            Some(pair_matches(row.retweet_aggregated_texts, row.retweet_aggregated_hashtags, phrase, hashtag))
        },
        InteractionType::Both => Some(
            pair_matches(row.reply_aggregated_texts, row.reply_aggregated_hashtags, phrase, hashtag)
                + pair_matches(row.retweet_aggregated_texts, row.retweet_aggregated_hashtags, phrase, hashtag),
        ),
    }
}

/// Whether a row takes part in a ranking of `kind`: for replies, when it
/// holds reply texts or reply hashtags; for retweets, when it holds retweet
/// texts or retweet hashtags; for both kinds, always.
pub open spec fn takes_part(kind: InteractionType, row: InteractionRow) -> bool {
    ||| kind == InteractionType::Both
    ||| kind == InteractionType::Reply && (row.reply_aggregated_texts is Some || row.reply_aggregated_hashtags is Some)
    ||| kind == InteractionType::Retweet && (row.retweet_aggregated_texts is Some
        || row.retweet_aggregated_hashtags is Some)
}

/// Occurrences of the phrase in the texts of `kind` and of the hashtag in its
/// hashtags, summed over both kinds for `Both`.
pub open spec fn kind_matches(kind: InteractionType, row: InteractionRow, phrase: Seq<char>, hashtag: Seq<char>) -> int {
    let reply = count_occurrences(phrase, text_or_empty(row.reply_aggregated_texts)) + count_occurrences(
        hashtag,
        text_or_empty(row.reply_aggregated_hashtags),
    );
    let retweet = count_occurrences(phrase, text_or_empty(row.retweet_aggregated_texts)) + count_occurrences(
        hashtag,
        text_or_empty(row.retweet_aggregated_hashtags),
    );
    if kind == InteractionType::Reply {
        reply as int
    } else if kind == InteractionType::Retweet {
        retweet as int
    } else {
        (reply + retweet) as int
    }
}

/// A row takes part in a ranking exactly when it holds texts or hashtags of
/// the kind asked for (every row, for both kinds), and it then counts the
/// phrase in those texts and the hashtag in those hashtags.
pub proof fn lemma_row_matches_kind(kind: InteractionType, row: InteractionRow, phrase: Seq<char>, hashtag: Seq<char>)
    ensures
        row_matches(kind, row, phrase, hashtag) is Some <==> takes_part(kind, row),
        row_matches(kind, row, phrase, hashtag) is Some ==> row_matches(kind, row, phrase, hashtag) == Some(
            kind_matches(kind, row, phrase, hashtag),
        ),
{
}

/// The tweet shown for a row: the latest reply or retweet; for both kinds,
/// the reply when its time stamp is the greater text, else the retweet.
pub open spec fn latest_text(kind: InteractionType, row: InteractionRow) -> Seq<char> {
    match kind {
        InteractionType::Reply => text_or_empty(row.latest_reply_text),
        InteractionType::Retweet => text_or_empty(row.latest_retweet_text),
        InteractionType::Both => if lex_less(
            text_or_empty(row.latest_retweet_text_timestamp),
            text_or_empty(row.latest_reply_text_timestamp),
        ) {
            text_or_empty(row.latest_reply_text)
        } else {
            text_or_empty(row.latest_retweet_text)
        },
    }
}

/// The count of `p` in the field fits in an `i32`.
pub open spec fn count_fits(p: Seq<char>, o: Option<String>) -> bool {
    count_occurrences(p, text_or_empty(o)) <= i32::MAX
}

/// Every count that ranking the row takes fits in an `i32`.
pub open spec fn row_countable(kind: InteractionType, row: InteractionRow, phrase: Seq<char>, hashtag: Seq<char>) -> bool {
    let reply = count_fits(phrase, row.reply_aggregated_texts) && count_fits(hashtag, row.reply_aggregated_hashtags);
    let retweet = count_fits(phrase, row.retweet_aggregated_texts) && count_fits(hashtag, row.retweet_aggregated_hashtags);
    match kind {
        InteractionType::Reply => (row.reply_aggregated_texts is None && row.reply_aggregated_hashtags is None) || reply,
        InteractionType::Retweet => (row.retweet_aggregated_texts is None && row.retweet_aggregated_hashtags is None)
            || retweet,
        InteractionType::Both => reply && retweet,
    }
}

/// A user to rank: the row it comes from, its id, how many matches its
/// interactions hold, and what the answer shows of it.
pub struct Candidate {
    pub row: usize,
    pub id: i64,
    pub matches: i64,
    pub screen_name: String,
    pub description: String,
    pub latest_tweet_text: String,
}

/// `c` is the candidate made of row `index`, which is `row`.
pub open spec fn candidate_of(c: Candidate, index: int, kind: InteractionType, row: InteractionRow, phrase: Seq<char>, hashtag: Seq<char>) -> bool {
    &&& c.row == index
    &&& c.id == row.to_user_id
    &&& row_matches(kind, row, phrase, hashtag) == Some(c.matches as int)
    &&& c.screen_name@ == text_or_empty(row.latest_screen_name)
    &&& c.description@ == text_or_empty(row.latest_description)
    &&& c.latest_tweet_text@ == latest_text(kind, row)
}

/// The text of an optional field.
fn field_text(o: &Option<String>) -> (r: String)
    ensures
        r@ == text_or_empty(*o),
{
    match o {
        Some(s) => s.clone(),
        None => String::new(),
    }
}

/// Occurrences of `phrase` in `texts` and of `hashtag` in `tags`.
fn count_pair(texts: &Option<String>, tags: &Option<String>, phrase: &str, hashtag: &str) -> (n: i64)
    requires
        count_fits(phrase@, *texts),
        count_fits(hashtag@, *tags),
    ensures
        n == pair_matches(*texts, *tags, phrase@, hashtag@),
{
    let t = field_text(texts);
    let h = field_text(tags);
    let a = count_overlapping_substrings(t.as_str(), phrase);
    let b = count_overlapping_substrings(h.as_str(), hashtag);
    a as i64 + b as i64
}

/// The candidate made of row `index`, or `None` when the row does not take part.
pub fn match_row(index: usize, kind: InteractionType, row: &InteractionRow, phrase: &str, hashtag: &str) -> (r: Option<Candidate>)
    requires
        row_countable(kind, *row, phrase@, hashtag@),
    ensures
        match r {
            None => row_matches(kind, *row, phrase@, hashtag@) is None,
            Some(c) => candidate_of(c, index as int, kind, *row, phrase@, hashtag@),
        },
        r is Some <==> takes_part(kind, *row),
        r matches Some(c) ==> c.matches == kind_matches(kind, *row, phrase@, hashtag@),
{
    let matches: i64 = match kind {
        InteractionType::Reply => {
            if row.reply_aggregated_texts.is_none() && row.reply_aggregated_hashtags.is_none() {
                return None;
            }
            count_pair(&row.reply_aggregated_texts, &row.reply_aggregated_hashtags, phrase, hashtag)
        },
        InteractionType::Retweet => {
            if row.retweet_aggregated_texts.is_none() && row.retweet_aggregated_hashtags.is_none() {
                return None;
            }
            count_pair(&row.retweet_aggregated_texts, &row.retweet_aggregated_hashtags, phrase, hashtag)
        },
        InteractionType::Both => {
            let a = count_pair(&row.reply_aggregated_texts, &row.reply_aggregated_hashtags, phrase, hashtag);
            let b = count_pair(&row.retweet_aggregated_texts, &row.retweet_aggregated_hashtags, phrase, hashtag);
            a + b
        },
    };
    let latest_tweet_text = match kind {
        InteractionType::Reply => field_text(&row.latest_reply_text),
        InteractionType::Retweet => field_text(&row.latest_retweet_text),
        InteractionType::Both => {
            let reply_time = field_text(&row.latest_reply_text_timestamp);
            let retweet_time = field_text(&row.latest_retweet_text_timestamp);
            if string_less(retweet_time.as_str(), reply_time.as_str()) {
                field_text(&row.latest_reply_text)
            } else {
                field_text(&row.latest_retweet_text)
            }
        },
    };
    Some(Candidate {
        row: index,
        id: row.to_user_id,
        matches: matches,
        screen_name: field_text(&row.latest_screen_name),
        description: field_text(&row.latest_description),
        latest_tweet_text: latest_tweet_text,
    })
}

/// Indices, below `n`, of the rows that take part, in order.
pub open spec fn kept_rows(kind: InteractionType, rows: Seq<InteractionRow>, phrase: Seq<char>, hashtag: Seq<char>, n: int) -> Seq<int>
    decreases n,
{
    if n <= 0 {
        Seq::empty()
    } else {
        let k = kept_rows(kind, rows, phrase, hashtag, n - 1);
        if row_matches(kind, rows[n - 1], phrase, hashtag) is Some {
            k.push(n - 1)
        } else {
            k
        }
    }
}

/// The candidates made of the rows that take part, in the order of the rows.
pub fn match_rows(kind: InteractionType, rows: &Vec<InteractionRow>, phrase: &str, hashtag: &str) -> (r: Vec<Candidate>)
    requires
        forall|i: int| 0 <= i < rows@.len() ==> #[trigger] row_countable(kind, rows@[i], phrase@, hashtag@),
    ensures
        r@.len() == kept_rows(kind, rows@, phrase@, hashtag@, rows@.len() as int).len(),
        forall|j: int| 0 <= j < r@.len() ==> {
            let k = #[trigger] kept_rows(kind, rows@, phrase@, hashtag@, rows@.len() as int)[j];
            candidate_of(r@[j], k, kind, rows@[k], phrase@, hashtag@)
        },
{
    let mut out: Vec<Candidate> = Vec::new();
    let mut i: usize = 0;
    while i < rows.len()
        invariant
            i <= rows@.len(),
            forall|i: int| 0 <= i < rows@.len() ==> #[trigger] row_countable(kind, rows@[i], phrase@, hashtag@),
            out@.len() == kept_rows(kind, rows@, phrase@, hashtag@, i as int).len(),
            forall|j: int| 0 <= j < out@.len() ==> {
                let k = #[trigger] kept_rows(kind, rows@, phrase@, hashtag@, i as int)[j];
                candidate_of(out@[j], k, kind, rows@[k], phrase@, hashtag@)
            },
        decreases rows@.len() - i,
    {
        let ghost before = kept_rows(kind, rows@, phrase@, hashtag@, i as int);
        assert(row_countable(kind, rows@[i as int], phrase@, hashtag@));
        match match_row(i, kind, &rows[i], phrase, hashtag) {
            Some(c) => {
                out.push(c);
            },
            None => {},
        }
        proof {
            let after = kept_rows(kind, rows@, phrase@, hashtag@, i + 1);
            assert forall|j: int| 0 <= j < before.len() implies after[j] == before[j] by {}
        }
        i = i + 1;
    }
    out
}

/// The candidates of the rows fetched for a user, as `match_rows` makes
/// them; the INVALID answer when no row was fetched at all.
pub fn candidates_or_invalid(kind: InteractionType, rows: &Vec<InteractionRow>, phrase: &str, hashtag: &str) -> (r: Result<Vec<Candidate>, String>)
    requires
        forall|i: int| 0 <= i < rows@.len() ==> #[trigger] row_countable(kind, rows@[i], phrase@, hashtag@),
    ensures
        r is Err <==> rows@.len() == 0,
        match r {
            Err(answer) => answer@ == malformed_text(),
            Ok(v) => {
                &&& v@.len() == kept_rows(kind, rows@, phrase@, hashtag@, rows@.len() as int).len()
                &&& forall|j: int| 0 <= j < v@.len() ==> {
                    let k = #[trigger] kept_rows(kind, rows@, phrase@, hashtag@, rows@.len() as int)[j];
                    candidate_of(v@[j], k, kind, rows@[k], phrase@, hashtag@)
                }
            },
        },
{
    if rows.len() == 0 {
        Err(malformed_response())
    } else {
        Ok(match_rows(kind, rows, phrase, hashtag))
    }
}

/// The line that shows a ranked user: id, screen name, description and
/// latest tweet, after a line break and separated by tabs.
pub open spec fn record_line(c: Candidate) -> Seq<char> {
    seq!['\n'] + int_to_decimal(c.id as int) + seq!['\t'] + c.screen_name@ + seq!['\t'] + c.description@ + seq!['\t']
        + c.latest_tweet_text@
}

/// The lines of the ranked users, in order.
pub open spec fn ranking_lines(rs: Seq<Candidate>) -> Seq<char>
    decreases rs.len(),
{
    if rs.len() == 0 {
        Seq::empty()
    } else {
        ranking_lines(rs.drop_last()) + record_line(rs.last())
    }
}

/// The answer listing the ranked users.
pub open spec fn ranking_text(rs: Seq<Candidate>) -> Seq<char> {
    "CCprojectFor3,851725245278"@ + ranking_lines(rs)
}

/// Writes the answer for users already in ranked order.
pub fn format_ranking(records: &[Candidate]) -> (r: String)
    ensures
        r@ == ranking_text(records@),
{
    let mut out = String::from_str("CCprojectFor3,851725245278");
    let mut i: usize = 0;
    while i < records.len()
        invariant
            i <= records@.len(),
            out@ == "CCprojectFor3,851725245278"@ + ranking_lines(records@.take(i as int)),
        decreases records@.len() - i,
    {
        let c = &records[i];
        let ghost before = out@;
        out.append("\n");
        let id = i64_to_decimal(c.id);
        let id_text = chars_to_string(id.as_slice());
        out.append(id_text.as_str());
        out.append("\t");
        out.append(c.screen_name.as_str());
        out.append("\t");
        out.append(c.description.as_str());
        out.append("\t");
        out.append(c.latest_tweet_text.as_str());
        proof {
            reveal_strlit("\n");
            reveal_strlit("\t");
            assert(records@.take(i + 1).drop_last() =~= records@.take(i as int));
            assert(out@ =~= before + record_line(records@[i as int]));
        }
        i = i + 1;
    }
    assert(records@.take(records@.len() as int) =~= records@);
    out
}

} // verus!
