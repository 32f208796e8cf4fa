use factorion::discord_api::{
    add_chunked_results, add_combined_results, add_description, add_field_results,
    add_full_text_results, add_results, add_title, create_embed, format_reply, parse_reply,
    should_use_simple_reply, simple_reply_text, Embed, Handler, MessageMeta, Reply,
    EMBED_DESCRIPTION_LIMIT, EMBED_FIELD_VALUE_LIMIT, MAX_MESSAGE_LEN,
};
use factorion::math::{Approximator, Mantissa};
use factorion::reddit_comment::{RedditComment, Status};

struct NoApproximations;

impl Approximator for NoApproximations {
    fn approximate_factorial(&self, _n: u64) -> (Mantissa, u64) {
        (Mantissa { units: 10_000_000_000_000_000 }, 0)
    }

    fn approximate_multifactorial_digits(&self, _n: u64, _k: u64) -> u64 {
        1
    }
}

fn empty_embed() -> Embed {
    Embed { title: None, description: None, fields: Vec::new() }
}

#[test]
fn test_should_use_simple_reply_short_text() {
    let short_text = "5! = 120";
    assert!(should_use_simple_reply(short_text));
}

#[test]
fn test_should_use_simple_reply_long_text() {
    let long_text = "a".repeat(500);
    assert!(!should_use_simple_reply(&long_text));
}

#[test]
fn test_should_use_simple_reply_with_newlines() {
    let text_with_newlines = "5! = 120\n6! = 720";
    assert!(!should_use_simple_reply(text_with_newlines));
}

#[test]
fn test_parse_reply_simple() {
    let reply = "5! = 120";
    let (description, results) = parse_reply(reply);

    assert_eq!(description, "5! = 120");
    assert_eq!(results.len(), 0);
}

#[test]
fn test_parse_reply_with_note() {
    let reply = "Note: Large numbers are approximated\n\n5! = 120\n6! = 720";
    let (description, results) = parse_reply(reply);

    assert_eq!(description, "Note: Large numbers are approximated");
    assert_eq!(results.len(), 2);
    assert_eq!(results[0], "5! = 120");
    assert_eq!(results[1], "6! = 720");
}

#[test]
fn test_parse_reply_with_footer() {
    let reply = "5! = 120\n*^(This action was performed by a bot.)*";
    let (description, results) = parse_reply(reply);

    assert_eq!(description, "5! = 120");
    assert_eq!(results.len(), 0);
}

#[test]
fn test_parse_reply_multiple_results() {
    let reply = "\n\n1! = 1\n2! = 2\n3! = 6\n4! = 24\n5! = 120";
    let (description, results) = parse_reply(reply);

    assert_eq!(description, "");
    assert_eq!(results.len(), 5);
    assert_eq!(results[0], "1! = 1");
    assert_eq!(results[4], "5! = 120");
}

#[test]
fn test_add_title_approximated() {
    let embed = empty_embed();
    let description = "Note: approximate values shown for large numbers";

    let result = add_title(embed, description, 1);

    assert!(description.contains("approximate"));
    assert_eq!(
        result.title.as_deref(),
        Some("🔢 Factorial Calculations (Approximated)")
    );
}

#[test]
fn test_add_title_multiple_results() {
    let embed = empty_embed();
    let description = "";

    let result = add_title(embed, description, 5);

    assert_eq!(description, "");
    assert_eq!(
        result.title.as_deref(),
        Some("🔢 Multiple Factorial Calculations")
    );
}

#[test]
fn test_add_title_single_result() {
    let embed = empty_embed();
    let description = "";

    let result = add_title(embed, description, 1);

    assert_eq!(description, "");
    assert_eq!(result.title.as_deref(), Some("🔢 Factorial Calculation"));
}

#[test]
fn test_add_description_short() {
    let embed = empty_embed();
    let description = "This is a short description".to_string();

    let result = add_description(embed, description.clone());

    assert_eq!(
        result.description.as_deref(),
        Some("ℹ️ *This is a short description*")
    );
}

#[test]
fn test_add_description_too_long() {
    let embed = empty_embed();
    let description = "a".repeat(EMBED_DESCRIPTION_LIMIT + 100);

    let result = add_description(embed, description);

    assert_eq!(
        result.description,
        Some(format!("ℹ️ *{}...*", "a".repeat(EMBED_DESCRIPTION_LIMIT - 3)))
    );
}

#[test]
fn test_message_meta_clone() {
    let meta = MessageMeta {
        message_id: 12345,
        channel_id: 67890,
        author: "TestUser".to_string(),
    };

    let cloned = meta.clone();

    assert_eq!(meta.message_id, cloned.message_id);
    assert_eq!(meta.channel_id, cloned.channel_id);
    assert_eq!(meta.author, cloned.author);
}

#[test]
fn test_message_meta_debug() {
    let meta = MessageMeta {
        message_id: 12345,
        channel_id: 67890,
        author: "TestUser".to_string(),
    };

    let debug_str = format!("{:?}", meta);

    assert!(debug_str.contains("MessageMeta"));
    assert!(debug_str.contains("TestUser"));
}

#[test]
fn test_handler_new() {
    let handler = Handler::new();

    assert!(handler.should_process(1, false));
}

#[test]
fn test_parse_reply_empty_lines() {
    let reply = "Note: Testing\n\n\n5! = 120\n\n6! = 720";
    let (description, results) = parse_reply(reply);

    assert_eq!(description, "Note: Testing");
    assert_eq!(results.len(), 2);
}

#[test]
fn test_parse_reply_whitespace_handling() {
    let reply = "  Note: Testing  \n\n  5! = 120  \n  6! = 720  ";
    let (description, results) = parse_reply(reply);

    assert_eq!(description, "Note: Testing");
    assert_eq!(results[0], "5! = 120");
    assert_eq!(results[1], "6! = 720");
}

#[test]
fn test_constants() {
    assert_eq!(MAX_MESSAGE_LEN, 2000);
    assert_eq!(EMBED_DESCRIPTION_LIMIT, 4096);
    assert_eq!(EMBED_FIELD_VALUE_LIMIT, 1024);
}

#[test]
fn simple_reply_boundary_is_400_bytes() {
    assert!(should_use_simple_reply(&"a".repeat(400)));
    assert!(!should_use_simple_reply(&"a".repeat(401)));
    // 200 characters of two bytes each are 400 bytes, 201 are more.
    assert!(should_use_simple_reply(&"×".repeat(200)));
    assert!(!should_use_simple_reply(&"×".repeat(201)));
}

#[test]
fn simple_reply_strips_footer_and_white_space() {
    assert_eq!(
        simple_reply_text("  5! = 120 \t*^(This action was performed by a bot.)**^(This action was performed by a bot.)*"),
        "**📊 Calculation Result**\n```\n5! = 120\n```"
    );
    assert_eq!(
        simple_reply_text("\u{a0}5! = 120\u{3000}"),
        "**📊 Calculation Result**\n```\n5! = 120\n```"
    );
}

#[test]
fn parse_reply_joins_the_lines_of_a_note() {
    let (description, results) = parse_reply("first\r\nsecond\n \nresult\n");
    assert_eq!(description, "first\nsecond");
    assert_eq!(results, vec!["result".to_string()]);
    let (description, results) = parse_reply("");
    assert_eq!(description, "");
    assert!(results.is_empty());
}

#[test]
fn title_for_large_numbers() {
    let result = add_title(empty_embed(), "these are large", 3);
    assert_eq!(
        result.title.as_deref(),
        Some("🔢 Factorial Calculations (Approximated)")
    );
}

#[test]
fn description_is_cut_between_characters() {
    // 2048 characters of two bytes are 4096 bytes and fit; one more does not.
    let fits = "×".repeat(2048);
    let result = add_description(empty_embed(), fits.clone());
    assert_eq!(result.description, Some(format!("ℹ️ *{}*", fits)));
    let long = "×".repeat(2049);
    let result = add_description(empty_embed(), long);
    // 4093 bytes hold 2046 characters of two bytes.
    assert_eq!(
        result.description,
        Some(format!("ℹ️ *{}...*", "×".repeat(2046)))
    );
}

#[test]
fn field_results_are_numbered_and_cut() {
    let results = vec!["5! = 120".to_string(), "b".repeat(1025)];
    let embed = add_field_results(empty_embed(), results);
    assert_eq!(embed.fields.len(), 2);
    assert_eq!(embed.fields[0].name, "📐 Calculation 1");
    assert_eq!(embed.fields[0].value, "```\n5! = 120\n```");
    assert!(!embed.fields[0].inline);
    assert_eq!(embed.fields[1].name, "📐 Calculation 2");
    assert_eq!(
        embed.fields[1].value,
        format!("```\n{}...\n```", "b".repeat(1004))
    );
}

#[test]
fn combined_results_share_the_room_with_the_note() {
    let results: Vec<String> = (1..=6).map(|i| format!("line {i}")).collect();
    let embed = add_combined_results(empty_embed(), results.clone(), 10);
    assert_eq!(embed.fields.len(), 1);
    assert_eq!(embed.fields[0].name, "📐 Results");
    assert_eq!(
        embed.fields[0].value,
        "```\nline 1\nline 2\nline 3\nline 4\nline 5\nline 6\n```"
    );
    // With a note of 4070 bytes 6 bytes are left for the results, and none
    // once they have to be cut.
    let embed = add_combined_results(empty_embed(), results.clone(), 4070);
    assert_eq!(embed.fields[0].value, "```\n...\n```");
    let embed = add_combined_results(empty_embed(), results, 4060);
    assert_eq!(embed.fields[0].value, "```\nline 1...\n```");
}

#[test]
fn chunked_results_show_ten_parts() {
    let text = "c".repeat(974 * 2 + 5);
    let embed = add_chunked_results(empty_embed(), &text);
    assert_eq!(embed.fields.len(), 3);
    assert_eq!(embed.fields[0].name, "Result Part 1/3");
    assert_eq!(embed.fields[0].value, format!("```\n{}\n```", "c".repeat(974)));
    assert_eq!(embed.fields[2].name, "Result Part 3/3");
    assert_eq!(embed.fields[2].value, "```\nccccc\n```");

    let text = "d".repeat(974 * 12);
    let embed = add_chunked_results(empty_embed(), &text);
    assert_eq!(embed.fields.len(), 10);
    assert_eq!(embed.fields[9].name, "Result Part 10/10");
    assert!(add_chunked_results(empty_embed(), "").fields.is_empty());
}

#[test]
fn full_text_is_a_description_or_fields() {
    let embed = add_full_text_results(
        empty_embed(),
        " something *^(This action was performed by a bot.)*",
    );
    assert_eq!(embed.description.as_deref(), Some("```\nsomething\n```"));
    assert!(embed.fields.is_empty());
    let embed = add_full_text_results(empty_embed(), &"e".repeat(4097));
    assert_eq!(embed.description, None);
    assert_eq!(embed.fields.len(), 5);
}

#[test]
fn results_choose_their_layout_by_their_number() {
    let none = add_results(empty_embed(), vec![], 0, "text");
    assert_eq!(none.description.as_deref(), Some("```\ntext\n```"));
    let five: Vec<String> = (1..=5).map(|i| i.to_string()).collect();
    assert_eq!(add_results(empty_embed(), five, 0, "text").fields.len(), 5);
    let six: Vec<String> = (1..=6).map(|i| i.to_string()).collect();
    let embed = add_results(empty_embed(), six, 0, "text");
    assert_eq!(embed.fields.len(), 1);
    assert_eq!(embed.fields[0].value, "```\n1\n2\n3\n4\n5\n6\n```");
}

#[test]
fn embed_of_a_reply() {
    let comment = RedditComment::new("5! and 6!", "1", "author", "channel", &NoApproximations);
    let reply = comment.get_reply();
    let embed = create_embed(&reply);
    assert_eq!(
        embed.title.as_deref(),
        Some("🔢 Factorial Calculation")
    );
    assert_eq!(
        embed.description.as_deref(),
        Some("ℹ️ *Factorial of 5 is 120*")
    );
    assert_eq!(embed.fields.len(), 1);
    assert_eq!(embed.fields[0].value, "```\nFactorial of 6 is 720\n```");
    assert_eq!(format_reply(&reply), Reply::Embed(embed));
    assert_eq!(
        format_reply("short"),
        Reply::Simple("**📊 Calculation Result**\n```\nshort\n```".to_string())
    );
}

#[test]
fn handler_replies_once_to_people() {
    let mut handler = Handler::new();
    let meta = MessageMeta { message_id: 7, channel_id: 9, author: "someone".to_string() };
    assert_eq!(handler.process_message(&meta, true, "5!", &NoApproximations), None);
    assert_eq!(handler.process_message(&meta, false, "no numbers", &NoApproximations), None);
    assert_eq!(handler.process_message(&meta, false, "1!", &NoApproximations), None);
    let reply = handler.process_message(&meta, false, "5!", &NoApproximations);
    assert_eq!(
        reply.as_deref(),
        Some("Factorial of 5 is 120 \n\n\n*^(This action was performed by a bot. Please DM me if you have any questions.)*")
    );
    assert!(!handler.should_process(7, false));
    assert_eq!(handler.process_message(&meta, false, "5!", &NoApproximations), None);
    let other = MessageMeta { message_id: 8, channel_id: 9, author: "someone".to_string() };
    assert!(handler.process_message(&other, false, "6!", &NoApproximations).is_some());
}

#[test]
fn handler_does_not_reply_to_marked_comments() {
    let mut handler = Handler::new();
    let mut comment = RedditComment::new("5!", "1", "a", "c", &NoApproximations);
    comment.add_status(Status::NotReplied);
    assert_eq!(handler.reply_to(3, &comment), None);
    assert!(handler.should_process(3, false));
}

#[test]
fn replies_on_discord_keep_within_a_message() {
    // 3250! has more than ten thousand digits but is shortened; sixteen
    // shortened lines take more than the 2000 bytes of a message.
    let mut handler = Handler::new();
    let meta = MessageMeta { message_id: 1, channel_id: 2, author: "someone".to_string() };
    let one = handler.process_message(&meta, false, "3250!", &NoApproximations).unwrap();
    assert!(one.starts_with("If I post the whole numbers"));
    assert!(one.contains("Factorial of 3250 is roughly 2.08400974868987945976"));
    let many: String = (3250..3266).map(|n| format!("{n}! ")).collect();
    let meta = MessageMeta { message_id: 2, channel_id: 2, author: "someone".to_string() };
    assert_eq!(
        handler.process_message(&meta, false, &many, &NoApproximations).as_deref(),
        Some("Sorry, but the reply text for all those number would be _really_ long, so I'd rather not even try posting lmao\n\n*^(This action was performed by a bot. Please DM me if you have any questions.)*")
    );
    let comment = RedditComment::new(&many, "3", "a", "c", &NoApproximations);
    assert!(comment.get_reply().len() > MAX_MESSAGE_LEN);
    assert_eq!(
        handler.reply_to(3, &comment).unwrap(),
        comment.get_reply_within(MAX_MESSAGE_LEN)
    );
}
