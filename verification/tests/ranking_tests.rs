use ccproject::decimal::i64_to_decimal;
use ccproject::ranking::{
    candidates_or_invalid, format_ranking, lowercase_phrase, match_row, match_rows, parse_interaction_type, Candidate, InteractionRow,
    InteractionType,
};
use ccproject::text::{chars_to_string, same_text, str_to_chars, string_less};

fn some(s: &str) -> Option<String> {
    Some(s.to_string())
}

fn row(id: i64) -> InteractionRow {
    InteractionRow {
        to_user_id: id,
        reply_aggregated_texts: None,
        retweet_aggregated_texts: None,
        reply_aggregated_hashtags: None,
        retweet_aggregated_hashtags: None,
        latest_retweet_text: None,
        latest_reply_text: None,
        latest_retweet_text_timestamp: None,
        latest_reply_text_timestamp: None,
        latest_screen_name: None,
        latest_description: None,
    }
}

#[test]
fn interaction_types_are_read_exactly() {
    assert_eq!(parse_interaction_type("reply"), Some(InteractionType::Reply));
    assert_eq!(parse_interaction_type("retweet"), Some(InteractionType::Retweet));
    assert_eq!(parse_interaction_type("both"), Some(InteractionType::Both));
    assert_eq!(parse_interaction_type("Reply"), None);
    assert_eq!(parse_interaction_type(""), None);
    assert_eq!(parse_interaction_type("replies"), None);
}

#[test]
fn phrase_is_searched_in_lower_case() {
    assert_eq!(lowercase_phrase("UwComm"), "uwcomm");
    assert_eq!(lowercase_phrase("ÉCOLE"), "école");
}

#[test]
fn rows_without_texts_of_the_kind_do_not_take_part() {
    let mut r = row(1);
    r.retweet_aggregated_texts = some("a b");
    assert!(match_row(0, InteractionType::Reply, &r, "a", "#a").is_none());
    assert!(match_row(0, InteractionType::Retweet, &r, "a", "#a").is_some());
    assert!(match_row(0, InteractionType::Both, &row(2), "a", "#a").is_some());
}

#[test]
fn matches_count_phrase_and_hashtag() {
    let mut r = row(42);
    r.reply_aggregated_texts = some("uwcomm rocks uwcommuwcomm");
    r.reply_aggregated_hashtags = some("#uw #uw");
    r.retweet_aggregated_texts = some("uwcomm");
    r.retweet_aggregated_hashtags = some("#uw");
    r.latest_reply_text = some("the reply");
    r.latest_retweet_text = some("the retweet");
    r.latest_reply_text_timestamp = some("2020-01-02 00:00:00");
    r.latest_retweet_text_timestamp = some("2020-01-01 00:00:00");
    r.latest_screen_name = some("alice");
    let c = match_row(7, InteractionType::Reply, &r, "uwcomm", "#uw").unwrap();
    assert_eq!((c.row, c.id, c.matches), (7, 42, 5));
    assert_eq!(c.latest_tweet_text, "the reply");
    assert_eq!(c.screen_name, "alice");
    assert_eq!(c.description, "");
    let c = match_row(7, InteractionType::Retweet, &r, "uwcomm", "#uw").unwrap();
    assert_eq!(c.matches, 2);
    assert_eq!(c.latest_tweet_text, "the retweet");
    let c = match_row(7, InteractionType::Both, &r, "uwcomm", "#uw").unwrap();
    assert_eq!(c.matches, 7);
    assert_eq!(c.latest_tweet_text, "the reply");
    r.latest_retweet_text_timestamp = some("2020-01-03 00:00:00");
    let c = match_row(7, InteractionType::Both, &r, "uwcomm", "#uw").unwrap();
    assert_eq!(c.latest_tweet_text, "the retweet");
    r.latest_retweet_text_timestamp = some("2020-01-02 00:00:00");
    let c = match_row(7, InteractionType::Both, &r, "uwcomm", "#uw").unwrap();
    assert_eq!(c.latest_tweet_text, "the retweet");
}

#[test]
fn kept_rows_keep_their_order_and_index() {
    let mut a = row(1);
    a.reply_aggregated_hashtags = some("#x");
    let b = row(2);
    let mut c = row(3);
    c.reply_aggregated_texts = some("xx");
    let rows = vec![a, b, c];
    let found = match_rows(InteractionType::Reply, &rows, "x", "#x");
    assert_eq!(found.len(), 2);
    assert_eq!((found[0].row, found[0].id, found[0].matches), (0, 1, 1));
    assert_eq!((found[1].row, found[1].id, found[1].matches), (2, 3, 2));
}

#[test]
fn ranking_text_lists_users_in_order() {
    let users = vec![
        Candidate {
            row: 0,
            id: 5669252,
            matches: 3,
            screen_name: "uw".to_string(),
            description: "news".to_string(),
            latest_tweet_text: "hello".to_string(),
        },
        Candidate {
            row: 1,
            id: -12,
            matches: 0,
            screen_name: "".to_string(),
            description: "d".to_string(),
            latest_tweet_text: "t".to_string(),
        },
    ];
    assert_eq!(
        format_ranking(&users),
        "CCprojectFor3,851725245278\n5669252\tuw\tnews\thello\n-12\t\td\tt"
    );
    assert_eq!(format_ranking(&[]), "CCprojectFor3,851725245278");
}

#[test]
fn signed_ids_render_like_to_string() {
    for v in [0i64, 7, -7, 1234567890, i64::MAX, i64::MIN] {
        let s: String = i64_to_decimal(v).into_iter().collect();
        assert_eq!(s, v.to_string());
    }
}

#[test]
fn text_helpers_follow_std() {
    assert!(same_text("abc", "abc"));
    assert!(!same_text("abc", "abd"));
    assert!(!same_text("ab", "abc"));
    assert!(string_less("ab", "abc"));
    assert!(string_less("abc", "abd"));
    assert!(!string_less("b", "abc"));
    assert!(string_less("z", "é"));
    assert_eq!(str_to_chars("héllo"), vec!['h', 'é', 'l', 'l', 'o']);
    assert_eq!(chars_to_string(&['a', 'ß', 'c']), "aßc");
}

#[test]
fn no_fetched_rows_gives_the_invalid_answer() {
    let none: Vec<InteractionRow> = Vec::new();
    let answer = candidates_or_invalid(InteractionType::Both, &none, "a", "#a");
    assert!(matches!(answer, Err(ref s) if s == "CCprojectFor3,851725245278\nINVALID"));
    let rows = vec![row(7)];
    let kept = candidates_or_invalid(InteractionType::Both, &rows, "a", "#a");
    assert!(matches!(kept, Ok(ref v) if v.len() == 1 && v[0].id == 7));
}
