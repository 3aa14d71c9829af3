use protohackers::coin::{
    match_postcond, match_precond, rewrite_message_with_coin, try_rewrite_message_with_coin,
    BOGUSCOIN,
};

#[test]
fn should_match_preconditions() {
    assert_eq!(
        rewrite_message_with_coin("7hZv5BMgzUkjE28S3fc3QVGEHO".to_string()),
        format!("{BOGUSCOIN}")
    );

    assert_eq!(
        rewrite_message_with_coin("HELLO 7hZv5BMgzUkjE28S3fc3QVGEHO".to_string()),
        format!("HELLO {BOGUSCOIN}")
    );
}

#[test]
fn should_match_postconditions() {
    assert_eq!(
        rewrite_message_with_coin("7hZv5BMgzUkjE28S3fc3QVGEHO".to_string()),
        format!("{BOGUSCOIN}")
    );

    assert_eq!(
        rewrite_message_with_coin("HELLO 7hZv5BMgzUkjE28S3fc3QVGEHO easdasd".to_string()),
        format!("HELLO {BOGUSCOIN} easdasd")
    );
}

#[test]
fn should_fail_replace_with_bogus() {
    assert_eq!(
        rewrite_message_with_coin("Please pay the ticket price of 15 Boguscoins to one of these addresses: 7e8AZRUqJDuAKKVX0AVy7rumBw7nqo 7uI3b69cGkEVRcJQgHrmf5389sC8c 7YWHMfk9JZe0LM0g1ZauHuiSxhI".to_string()),
        format!("Please pay the ticket price of 15 Boguscoins to one of these addresses: {BOGUSCOIN} {BOGUSCOIN} {BOGUSCOIN}")
    );

    assert_eq!(
        rewrite_message_with_coin("a 7iKDZEwPZSq".to_string()),
        "a 7iKDZEwPZSq"
    );

    assert_eq!(
        rewrite_message_with_coin(
            "Please send the payment of 750 Boguscoins to 7aNs40WdhFyotsVWZ8Eaby9AxoV2AHfM72C"
                .to_string()
        ),
        format!("Please send the payment of 750 Boguscoins to {BOGUSCOIN}")
    );

    assert_eq!(
        rewrite_message_with_coin(
            "This is too long: 7Ryicv1IR6zGBDBKxgOoTsa8lLOKnlCc56d9".to_string()
        ),
        "This is too long: 7Ryicv1IR6zGBDBKxgOoTsa8lLOKnlCc56d9"
    );

    assert_eq!(
        rewrite_message_with_coin(
            "This is a product ID, not a Boguscoin: 79Q3XcLeao2AywS6ZESfQ6Klo9A-FkG9gFCIDABha2yyLEW8v2epb4Gumct-1234".to_string()
        ),
        "This is a product ID, not a Boguscoin: 79Q3XcLeao2AywS6ZESfQ6Klo9A-FkG9gFCIDABha2yyLEW8v2epb4Gumct-1234"
    );
}

#[test]
fn message_without_seven_is_unchanged() {
    let m = "Hi everyone, how are you?\n".to_string();
    assert_eq!(rewrite_message_with_coin(m.clone()), m);
    assert_eq!(rewrite_message_with_coin(String::new()), "");
}

#[test]
fn address_followed_by_newline_is_rewritten() {
    assert_eq!(
        rewrite_message_with_coin("send to 7F1u3wSD5RbOHQmupo9nx4TnhQ\n".to_string()),
        format!("send to {BOGUSCOIN}\n")
    );
}

#[test]
fn address_length_limits() {
    let shortest = format!("7{}", "a".repeat(25));
    let longest = format!("7{}", "a".repeat(34));
    let too_short = format!("7{}", "a".repeat(24));
    let too_long = format!("7{}", "a".repeat(35));
    assert_eq!(rewrite_message_with_coin(shortest), BOGUSCOIN);
    assert_eq!(rewrite_message_with_coin(longest), BOGUSCOIN);
    assert_eq!(rewrite_message_with_coin(too_short.clone()), too_short);
    assert_eq!(rewrite_message_with_coin(too_long.clone()), too_long);
}

#[test]
fn every_occurrence_of_an_address_text_is_replaced() {
    let coin = format!("7{}", "b".repeat(27));
    let m = format!("x{coin} {coin}");
    assert_eq!(
        rewrite_message_with_coin(m),
        format!("x{BOGUSCOIN} {BOGUSCOIN}")
    );
}

#[test]
fn address_after_other_text_is_kept() {
    let m = format!("pay-7{}", "c".repeat(30));
    assert_eq!(rewrite_message_with_coin(m.clone()), m);
}

#[test]
fn non_ascii_message_is_rewritten_at_char_indices() {
    let m = format!("héllo 7{}", "d".repeat(27));
    assert_eq!(try_rewrite_message_with_coin(m.clone()), Some(m));
}

#[test]
fn address_ending_inside_a_character_is_refused() {
    let m = format!("é  7{}éa", "a".repeat(24));
    assert_eq!(try_rewrite_message_with_coin(m), None);
}

#[test]
fn try_rewrite_matches_rewrite_on_ascii() {
    let m = "HELLO 7hZv5BMgzUkjE28S3fc3QVGEHO".to_string();
    assert_eq!(
        try_rewrite_message_with_coin(m.clone()),
        Some(rewrite_message_with_coin(m))
    );
}

#[test]
fn precondition_and_postcondition_checks() {
    assert!(match_precond("7abc", 0));
    assert!(match_precond("a 7bc", 2));
    assert!(!match_precond("ab7c", 2));
    assert!(match_postcond("abc", 2));
    assert!(match_postcond("abc d", 2));
    assert!(match_postcond("abc\nd", 2));
    assert!(!match_postcond("abc-d", 2));
}
