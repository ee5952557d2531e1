use log_scouter::shapes::value_class;
use log_scouter::templates::{
    common_message_pattern, common_subsequence, message_template, pattern_candidates,
};

#[test]
fn common_pattern_generalises_differing_tokens_in_place() {
    let pattern = common_message_pattern(&[
        "Distribution Service Trigger: 5 subscriptions queued",
        "Distribution Service Trigger: 7 subscriptions queued",
    ])
    .unwrap();
    assert_eq!(
        pattern,
        r"Distribution\s+Service\s+Trigger:\s+\d+\s+subscriptions\s+queued"
    );

    let regex = regex::Regex::new(&pattern).unwrap();
    assert!(regex.is_match("Distribution Service Trigger: 5 subscriptions queued"));
    assert!(regex.is_match("Distribution Service Trigger: 7 subscriptions queued"));
    assert!(!regex.is_match("Cache miss for session 12"));
    assert!(!regex.is_match("Distribution Service Trigger: many subscriptions queued"));
}

#[test]
fn common_pattern_escapes_regex_metacharacters() {
    let pattern =
        common_message_pattern(&["UserSession::TimeOut() id=1", "UserSession::TimeOut() id=2"])
            .unwrap();
    let regex = regex::Regex::new(&pattern).unwrap();
    assert!(regex.is_match("UserSession::TimeOut() id=9"));
    assert!(!regex.is_match("UserSession::TimeOut id=9"));
}

#[test]
fn common_pattern_falls_back_to_shared_tokens_when_lengths_differ() {
    let pattern = common_message_pattern(&[
        "Cache miss for session 12",
        "Cache miss for user bob in session 13",
    ])
    .unwrap();
    assert_eq!(pattern, r"Cache.*miss.*for.*session");

    let regex = regex::Regex::new(&pattern).unwrap();
    assert!(regex.is_match("Cache miss for session 12"));
    assert!(regex.is_match("Cache miss for user bob in session 13"));
}

#[test]
fn common_pattern_falls_back_to_literals_rather_than_a_catch_all() {
    let pattern = common_message_pattern(&["alpha beta", "gamma delta"]).unwrap();
    assert_eq!(pattern, r"(?:alpha beta|gamma delta)");
    let regex = regex::Regex::new(&pattern).unwrap();
    assert!(regex.is_match("alpha beta"));
    assert!(regex.is_match("gamma delta"));
    assert!(!regex.is_match("alpha delta"));

    let pattern = common_message_pattern(&["alpha", "gamma delta"]).unwrap();
    assert_eq!(pattern, r"(?:alpha|gamma delta)");

    let pattern =
        common_message_pattern(&["the quick brown fox", "the slow purple elephant here"]).unwrap();
    assert!(pattern.starts_with("(?:"), "over-generalised to {pattern}");

    assert_eq!(common_message_pattern(&["same", "same"]).unwrap(), "same");

    assert_eq!(common_message_pattern(&["alpha beta"]), None);
    assert_eq!(common_message_pattern(&[]), None);
    assert_eq!(common_message_pattern(&["  ", "   "]), None);
}

#[test]
fn common_pattern_still_generalises_when_one_line_is_an_outlier_free_header() {
    let pattern = common_message_pattern(&[
        "# Server Log version 2.0",
        "NetChannel : Channel is closed. remote 'ip-1'",
        "NetChannel : Channel is closed. remote 'ip-2'",
    ])
    .unwrap();
    let regex = regex::Regex::new(&pattern).unwrap();
    assert!(regex.is_match("# Server Log version 2.0"));
    assert!(regex.is_match("NetChannel : Channel is closed. remote 'ip-1'"));
    assert!(regex.is_match("NetChannel : Channel is closed. remote 'ip-2'"));
    assert!(!regex.is_match("Cache miss for session 12"));
}

#[test]
fn common_pattern_keeps_a_literal_when_only_some_tokens_differ() {
    let pattern = common_message_pattern(&["a 1 c", "a 2 c", "a 3 c"]).unwrap();
    assert_eq!(pattern, r"a\s+\d+\s+c");

    let pattern = common_message_pattern(&["a x1 c", "a 2y c"]).unwrap();
    assert_eq!(pattern, r"a\s+\S+\s+c");
}

#[test]
fn differing_tokens_collapse_to_the_tightest_shared_shape() {
    let class = |left: &str, right: &str| {
        common_message_pattern(&[&format!("x {left} y"), &format!("x {right} y")]).unwrap()
    };

    assert_eq!(
        class("0x800424FB", "0x8004010C"),
        r"x\s+0[xX][0-9a-fA-F]+\s+y"
    );
    assert_eq!(
        class("10.0.0.5", "10.0.0.6"),
        r"x\s+\d{1,3}(?:\.\d{1,3}){3}\s+y"
    );
    assert_eq!(class("1.25", "3.5"), r"x\s+\d+[.,]\d+\s+y");
    assert_eq!(
        class(
            "8ea1c0de-1111-2222-3333-444455556666",
            "9fb2d1ef-7777-8888-9999-aaaabbbbcccc"
        ),
        r"x\s+[0-9a-fA-F]{8}(?:-[0-9a-fA-F]{4}){3}-[0-9a-fA-F]{12}\s+y"
    );
    assert_eq!(class("alpha", "gamma"), r"x\s+\S+\s+y");
}

#[test]
fn a_differing_token_keeps_the_part_every_line_agrees_on() {
    let pattern = common_message_pattern(&["session id=1 opened", "session id=27 opened"]).unwrap();
    assert_eq!(pattern, r"session\s+id=\d+\s+opened");

    let regex = regex::Regex::new(&pattern).unwrap();
    assert!(regex.is_match("session id=99 opened"));
    assert!(!regex.is_match("session id=x opened"));
}

#[test]
fn a_column_of_pure_wildcards_never_becomes_the_template() {
    let pattern = common_message_pattern(&["5", "7"]).unwrap();
    assert_eq!(pattern, "(?:5|7)");
}

#[test]
fn a_single_line_generalises_its_value_shapes_and_keeps_its_words() {
    let pattern = message_template("Session 900 created for user analyst").unwrap();
    assert_eq!(pattern, r"Session\s+\d+\s+created\s+for\s+user\s+analyst");

    let regex = regex::Regex::new(&pattern).unwrap();
    assert!(regex.is_match("Session 41 created for user analyst"));
    assert!(!regex.is_match("Session 41 destroyed for user analyst"));

    assert_eq!(
        message_template("timeout after 30s, retry=4;").unwrap(),
        r"timeout\s+after\s+30s,\s+retry=\d+;"
    );
    assert_eq!(message_template("cache miss").unwrap(), r"cache\s+miss");
    assert_eq!(message_template("900").unwrap(), "900");
    assert_eq!(message_template("   "), None);
}

fn candidate_names(messages: &[&str]) -> Vec<&'static str> {
    pattern_candidates(messages)
        .iter()
        .map(|option| option.name)
        .collect()
}

fn candidate(messages: &[&str], name: &str) -> String {
    pattern_candidates(messages)
        .into_iter()
        .find(|option| option.name == name)
        .unwrap_or_else(|| panic!("no {name} template among {:?}", candidate_names(messages)))
        .pattern
}

#[test]
fn the_ladder_runs_from_the_loosest_strategy_to_the_strictest() {
    let lines = ["a 1 c", "a 2 c"];
    assert_eq!(
        candidate_names(&lines),
        ["loose", "prefix", "wildcard", "typed", "exact"]
    );
    assert_eq!(candidate(&lines, "loose"), r"a.*c");
    assert_eq!(candidate(&lines, "prefix"), r"a.*");
    assert_eq!(candidate(&lines, "wildcard"), r"a\s+\S+\s+c");
    assert_eq!(candidate(&lines, "typed"), r"a\s+\d+\s+c");
    assert_eq!(candidate(&lines, "exact"), "(?:a 1 c|a 2 c)");

    for option in pattern_candidates(&lines) {
        let regex = regex::Regex::new(&option.pattern).unwrap();
        for line in lines {
            assert!(regex.is_match(line), "{} misses {line:?}", option.name);
        }
    }
}

#[test]
fn a_template_is_offered_once_however_many_strategies_reach_it() {
    let lines = ["a x1 c", "a 2y c"];
    let names = candidate_names(&lines);
    assert!(names.contains(&"wildcard"), "{names:?}");
    assert!(!names.contains(&"typed"), "duplicate offered: {names:?}");
    assert_eq!(candidate(&lines, "wildcard"), r"a\s+\S+\s+c");
}

#[test]
fn lines_of_different_lengths_still_get_the_loose_rungs() {
    let lines = [
        "Cache miss for session 12",
        "Cache miss for user bob in session 13",
    ];
    assert_eq!(candidate_names(&lines), ["loose", "prefix", "exact"]);
    assert_eq!(candidate(&lines, "loose"), r"Cache.*miss.*for.*session");
    assert_eq!(candidate(&lines, "prefix"), r"Cache\s+miss\s+for.*");
}

#[test]
fn a_lone_line_is_not_offered_a_wildcard_it_cannot_derive() {
    let lines = ["Session 900 created for user analyst"];
    let names = candidate_names(&lines);
    assert!(!names.contains(&"wildcard"), "{names:?}");
    assert_eq!(
        candidate(&lines, "typed"),
        r"Session\s+\d+\s+created\s+for\s+user\s+analyst"
    );
    assert_eq!(
        candidate(&lines, "prefix"),
        r"Session\s+900\s+created\s+for\s+user\s+analyst.*"
    );

    assert!(pattern_candidates(&[]).is_empty());
    assert!(pattern_candidates(&["  ", "   "]).is_empty());
}

#[test]
fn the_default_template_is_one_of_the_offered_rungs() {
    for lines in [
        vec!["a 1 c", "a 2 c"],
        vec!["alpha beta", "gamma delta"],
        vec!["Cache miss for session 12", "Cache miss for user bob in 13"],
        vec!["5", "7"],
    ] {
        let default = common_message_pattern(&lines).unwrap();
        let patterns: Vec<String> = pattern_candidates(&lines)
            .into_iter()
            .map(|option| option.pattern)
            .collect();
        assert!(
            patterns.contains(&default),
            "default {default:?} missing from {patterns:?}"
        );
    }

    let default = message_template("Session 900 created").unwrap();
    let patterns: Vec<String> = pattern_candidates(&["Session 900 created"])
        .into_iter()
        .map(|option| option.pattern)
        .collect();
    assert!(patterns.contains(&default), "{patterns:?}");
}

// ---- values and ladders -----------------------------------------------------------

#[test]
fn the_common_subsequence_is_common_and_longest() {
    let left = ["a", "b", "c", "b", "d"];
    let right = ["b", "d", "c", "a", "b"];
    let common = common_subsequence(&left, &right);
    assert_eq!(common.len(), 3);
    for side in [&left, &right] {
        let mut at = 0;
        for token in &common {
            while side[at] != *token {
                at += 1;
            }
            at += 1;
        }
    }
    assert!(common_subsequence(&left, &[]).is_empty());
}

#[test]
fn a_class_covers_every_value_it_was_chosen_for() {
    for values in [vec!["1", "22"], vec!["0x1F", "0xab"], vec!["10.0.0.1"]] {
        let class = value_class(&values).unwrap();
        let regex = regex::Regex::new(&format!("^(?:{})$", class.regex())).unwrap();
        for value in values {
            assert!(class.belongs(value));
            assert!(regex.is_match(value), "{value}");
        }
    }
    assert!(value_class(&["alpha"]).is_none());
}

#[test]
fn a_pattern_matches_every_line_it_came_from() {
    for messages in [
        vec!["x 'a'b' y", "x 'c' y"],
        vec!["x \"a\"\" y", "x \"c\" y"],
        vec!["from 0001.0.0.1 in", "from 10.0.0.1 in"],
        vec!["start one\n  two\nend", "start three end more"],
        vec!["id=1, done", "id=22, done"],
        vec!["alpha", "beta gamma delta"],
    ] {
        let pattern = common_message_pattern(&messages).unwrap();
        let regex = regex::Regex::new(&pattern).unwrap();
        for message in &messages {
            assert!(regex.is_match(message), "{pattern} misses {message:?}");
        }
        for option in pattern_candidates(&messages) {
            let regex = regex::Regex::new(&option.pattern).unwrap();
            for message in &messages {
                assert!(regex.is_match(message), "{} misses {message:?}", option.name);
            }
        }
    }
}

#[test]
fn candidates_end_in_the_lines_themselves() {
    let names = |messages: &[&str]| -> Vec<&'static str> {
        pattern_candidates(messages)
            .into_iter()
            .map(|option| option.name)
            .collect()
    };
    assert!(names(&["", "  "]).is_empty());
    assert_eq!(
        names(&["took 12 ms", "took 7 ms"]),
        ["loose", "prefix", "wildcard", "typed", "exact"]
    );
    assert_eq!(names(&["a b", "a b c"]), ["loose", "prefix", "exact"]);
    assert_eq!(names(&["(a)", "(b)"]).last(), Some(&"exact"));
    assert_eq!(names(&["12 7", "9 31"]), ["exact"]);
}
