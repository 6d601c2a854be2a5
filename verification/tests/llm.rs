//! Reading answers and trying again.

use glisser::llm::{parse, react, read, Answer, Move, Reached, ServiceError, Usage, ATTEMPTS};

fn says(content: Option<&str>) -> Answer {
    Answer {
        error: None,
        choices: vec![content.map(str::to_string)],
        usage: Some(Usage { prompt_tokens: 10, completion_tokens: 2, cost: 0.5f64.to_bits() }),
    }
}

fn response(status: u16, parsed: Result<Answer, String>) -> Reached {
    Reached::Response { status, words: format!("{status} Words"), text: "body".into(), parsed }
}

#[test]
fn an_answer_becomes_a_reply() {
    let r = parse("{}", Ok(says(Some("{}")))).unwrap();
    assert_eq!(r.content, "{}");
    assert_eq!((r.prompt_tokens, r.completion_tokens), (10, 2));
    assert_eq!(f64::from_bits(r.cost), 0.5);
    let free = parse("{}", Ok(Answer { usage: None, ..says(Some("x")) })).unwrap();
    assert_eq!((free.prompt_tokens, free.completion_tokens, free.cost), (0, 0, 0));
}

#[test]
fn a_reply_is_never_blank() {
    for content in [None, Some(""), Some(" \n\t"), Some("\u{a0}")] {
        let e = parse("{}", Ok(says(content))).unwrap_err();
        assert_eq!(e, "empty answer from the model");
    }
    let none = Answer { choices: Vec::new(), ..says(None) };
    assert_eq!(parse("{}", Ok(none)).unwrap_err(), "empty answer from the model");
}

#[test]
fn faults_are_named() {
    let refused = Answer {
        error: Some(ServiceError { message: "no credit".into(), code: "Some(Number(402))".into() }),
        ..says(Some("x"))
    };
    assert_eq!(parse("{}", Ok(refused)).unwrap_err(), "OpenRouter: no credit Some(Number(402))");
    let long = "я".repeat(500);
    assert_eq!(
        parse(&long, Err("expected value".into())).unwrap_err(),
        format!("unrecognized answer: {}: expected value", "я".repeat(400))
    );
}

#[test]
fn waits_double() {
    let mut seconds = Vec::new();
    for attempt in 1..ATTEMPTS {
        match react(attempt, Reached::Nothing("no route".into())) {
            Move::Wait { seconds: s, why } => {
                assert_eq!(why, "no route");
                seconds.push(s);
            }
            _ => panic!("attempts are left"),
        }
    }
    assert_eq!(seconds, vec![2, 4, 8, 16]);
}

#[test]
fn the_last_attempt_ends_it() {
    let Move::GiveUp(why) = react(ATTEMPTS, Reached::Nothing("no route".into())) else {
        panic!("no attempts are left")
    };
    assert_eq!(why, "the model stayed unreachable after 5 attempts: no route");
    let Move::GiveUp(why) = react(ATTEMPTS, response(503, Err("x".into()))) else {
        panic!("no attempts are left")
    };
    assert_eq!(why, "the model stayed unreachable after 5 attempts: HTTP 503 Words: body");
}

#[test]
fn a_call_at_fault_is_not_repeated() {
    for status in [400, 401, 402, 404, 499] {
        let Move::GiveUp(why) = react(1, response(status, Err("x".into()))) else {
            panic!("{status} will not change")
        };
        assert_eq!(why, format!("HTTP {status} Words: body"));
    }
    for status in [302, 429, 500, 503] {
        assert!(matches!(
            react(1, response(status, Err("x".into()))),
            Move::Wait { seconds: 2, .. }
        ));
    }
}

#[test]
fn a_broken_body_is_tried_again() {
    assert!(matches!(react(5, response(200, Ok(says(Some("x"))))), Move::Done(r) if r.content == "x"));
    assert!(matches!(
        react(2, response(200, Ok(says(None)))),
        Move::Wait { seconds: 4, why } if why == "empty answer from the model"
    ));
}

#[test]
fn an_empty_answer_is_none() {
    assert!(read("{}", Ok(says(Some("x"))), false).is_ok());
    assert_eq!(
        read("{}", Ok(says(Some("x"))), true).unwrap_err(),
        "empty answer from the model"
    );
    assert_eq!(read("{}", Ok(says(None)), false).unwrap_err(), "empty answer from the model");
}
