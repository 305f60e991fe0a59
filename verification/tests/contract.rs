use kime_compat::contract::{check, ScoreVerdict};
use kime_compat::json::{Json, Number, NumberKind};
use serde_json::Value;

/// The place of `x` among finite floats, with both zeros at zero.
fn order_key(x: f64) -> i64 {
    if x == 0.0 {
        return 0;
    }
    let k = x.to_bits() as i64;
    if k < 0 {
        k ^ i64::MAX
    } else {
        k
    }
}

fn number(n: &serde_json::Number) -> Number {
    let x = n.as_f64().unwrap_or(0.0);
    let kind = if let Some(u) = n.as_u64() {
        NumberKind::PosInt(u)
    } else if let Some(i) = n.as_i64() {
        NumberKind::NegInt(i)
    } else {
        NumberKind::Float
    };
    Number {
        kind,
        order: order_key(x),
        unit: x.is_finite() && (0.0..=1.0).contains(&x),
        hundredths: (x * 100.0).round() as i64,
        text: n.to_string(),
        shown: format!("{x:?}"),
    }
}

fn model(v: &Value) -> Json {
    match v {
        Value::Null => Json::Null,
        Value::Bool(b) => Json::Bool(*b),
        Value::Number(n) => Json::Number(number(n)),
        Value::String(s) => Json::String(s.clone()),
        Value::Array(xs) => Json::Array(xs.iter().map(model).collect()),
        Value::Object(m) => Json::Object(m.iter().map(|(k, v)| (k.clone(), model(v))).collect()),
    }
}

fn parse(text: &str) -> Value {
    serde_json::from_str(text).unwrap()
}

fn request() -> Value {
    parse(r#"{"questions": {
        "team": {"type": "choice", "criteria": {"billing": "Payments", "technical": null}},
        "churn": {"type": "noul"}
    }}"#)
}

fn response() -> Value {
    parse(r#"{"model": "kime-v1-s-en-0.0.1", "answers": {
        "team": {"type": "choice", "choice": "billing", "confidence": 0.8, "probabilities": {"billing": 0.9, "technical": 0.1}},
        "churn": {"type": "noul", "noul": 0.7}
    }, "usage": {"input_tokens": 40, "output_tokens": 0}}"#)
}

fn run(request: &Value, response: &Value) -> Vec<String> {
    check(&model(request), &model(response), &Vec::new())
}

#[test]
fn a_good_response_passes() {
    assert_eq!(run(&request(), &response()), Vec::<String>::new());
}

#[test]
fn answers_out_of_order_fail() {
    let mut r = response();
    let a = r["answers"].as_object_mut().unwrap();
    let team = a.shift_remove("team").unwrap();
    a.insert("team".into(), team);
    assert!(run(&request(), &r)[0].contains("in that order"));
}

#[test]
fn a_sum_that_is_only_close_fails() {
    let mut r = response();
    r["answers"]["team"]["probabilities"]["technical"] = Value::from(0.11);
    assert!(run(&request(), &r).iter().any(|p| p.contains("101 hundredths")));
}

#[test]
fn a_choice_that_is_not_the_argmax_fails() {
    let mut r = response();
    r["answers"]["team"]["choice"] = Value::from("technical");
    assert!(run(&request(), &r).iter().any(|p| p.contains("argmax")));
}

#[test]
fn an_alias_as_the_model_fails() {
    let mut r = response();
    r["model"] = Value::from("jev-latest");
    assert!(run(&request(), &r).iter().any(|p| p.contains("alias")));
}

#[test]
fn the_exact_messages_of_each_rule() {
    let mut r = response();
    r["answers"]["team"]["choice"] = Value::from("technical");
    r["answers"]["team"]["confidence"] = Value::from(1.5);
    r["answers"]["churn"]["noul"] = Value::from("high");
    r["model"] = Value::from("jev-latest");
    r["usage"]["output_tokens"] = Value::from(3);
    assert_eq!(
        run(&request(), &r),
        vec![
            "model jev-latest is an alias, not the resolved id",
            "usage.output_tokens is Some(3), and nothing is ever generated",
            "team: choice Some(\"technical\") is not an argmax of the probabilities",
            "team: confidence Some(1.5) is not in [0, 1]",
            "churn: noul None is not in [0, 1]",
        ]
    );
}

#[test]
fn the_order_message_lists_both_orders() {
    let mut r = response();
    let a = r["answers"].as_object_mut().unwrap();
    let team = a.shift_remove("team").unwrap();
    a.insert("team".into(), team);
    assert_eq!(
        run(&request(), &r)[0],
        "answers are [\"churn\", \"team\"] but the questions were [\"team\", \"churn\"], in that order"
    );
}

#[test]
fn no_questions_and_no_answers_stop_at_once() {
    assert_eq!(
        run(&parse("{}"), &response()),
        vec!["the request has no questions object"]
    );
    assert_eq!(
        run(&request(), &parse(r#"{"answers": []}"#)),
        vec!["the response has no answers object"]
    );
}

#[test]
fn a_missing_model_and_missing_usage_are_reported() {
    let r = parse(r#"{"answers": {}}"#);
    assert_eq!(
        run(&parse(r#"{"questions": {}}"#), &r),
        vec![
            "the response has no model",
            "usage.output_tokens is None, and nothing is ever generated",
        ]
    );
}

#[test]
fn probabilities_out_of_range_and_missing_are_reported() {
    let mut r = response();
    r["answers"]["team"]["probabilities"]["technical"] = Value::from("a lot");
    let found = run(&request(), &r);
    assert_eq!(found[0], "team: probability for technical is \"a lot\", not a finite value in [0, 1]");
    assert_eq!(found[1], "team: probabilities sum to 90 hundredths, not exactly 100");
    let mut r = response();
    r["answers"]["team"]
        .as_object_mut()
        .unwrap()
        .shift_remove("probabilities");
    assert_eq!(run(&request(), &r), vec!["team: no probabilities"]);
}

#[test]
fn keys_that_are_not_the_labels_are_reported() {
    let mut r = response();
    r["answers"]["team"]["probabilities"] = parse(r#"{"technical": 0.1, "billing": 0.9}"#);
    assert_eq!(
        run(&request(), &r),
        vec!["team: probability keys are [\"technical\", \"billing\"], the offered labels are [\"billing\", \"technical\"]"]
    );
}

#[test]
fn a_wrong_answer_type_and_an_unknown_type_are_reported() {
    let q = parse(r#"{"questions": {"x": {"type": "rank\ty"}}}"#);
    let r = parse(r#"{"model": "m", "answers": {"x": {"type": "choice"}}, "usage": {"output_tokens": 0}}"#);
    assert_eq!(
        run(&q, &r),
        vec![
            "x: the answer type is not rank\ty",
            "x: unknown question type \"rank\\ty\"",
        ]
    );
}

fn score_request() -> Value {
    parse(r#"{"questions": {"tone": {"type": "score", "criteria": ["cold", {"warm": 1}, "hot"]}}}"#)
}

fn score_response() -> Value {
    parse(r#"{"model": "m", "usage": {"output_tokens": 0}, "answers": {"tone": {
        "type": "score", "score": 1.2, "confidence": 0.5,
        "probabilities": {"0": 0.1, "1": 0.6, "2": 0.3},
        "legend": ["cold", {"warm": 1}, "hot"]
    }}}"#)
}

#[test]
fn a_good_score_answer_passes() {
    let verdicts = vec![ScoreVerdict { id: "tone".to_string(), problem: None }];
    assert_eq!(
        check(&model(&score_request()), &model(&score_response()), &verdicts),
        Vec::<String>::new()
    );
}

#[test]
fn a_score_verdict_and_a_legend_that_differs_are_reported() {
    let mut r = score_response();
    r["answers"]["tone"]["legend"] = parse(r#"{"0": "cold", "1": {"warm": 1.0}}"#);
    let verdicts = vec![
        ScoreVerdict { id: "other".to_string(), problem: Some("wrong".to_string()) },
        ScoreVerdict { id: "tone".to_string(), problem: Some("score Some(2.0) is not the expected level 1.200".to_string()) },
    ];
    assert_eq!(
        check(&model(&score_request()), &model(&r), &verdicts),
        vec![
            "tone: score Some(2.0) is not the expected level 1.200",
            "tone: legend 1 does not echo the criterion exactly as sent",
            "tone: legend 2 does not echo the criterion exactly as sent",
        ]
    );
}

#[test]
fn score_keys_must_be_the_levels() {
    let mut r = score_response();
    r["answers"]["tone"]["probabilities"] = parse(r#"{"0": 0.4, "2": 0.6}"#);
    let found = check(&model(&score_request()), &model(&r), &Vec::new());
    assert_eq!(
        found,
        vec!["tone: probability keys are [\"0\", \"2\"], the levels are [\"0\", \"1\", \"2\"]"]
    );
}

#[test]
fn an_argmax_may_be_tied() {
    let mut r = response();
    r["answers"]["team"]["probabilities"] = parse(r#"{"billing": 0.5, "technical": 0.5}"#);
    assert_eq!(run(&request(), &r), Vec::<String>::new());
    r["answers"]["team"]["choice"] = Value::from("technical");
    assert_eq!(run(&request(), &r), Vec::<String>::new());
}

#[test]
fn verdicts_matter_only_for_score_questions() {
    let verdicts = vec![
        ScoreVerdict { id: "team".to_string(), problem: Some("wrong".to_string()) },
        ScoreVerdict { id: "churn".to_string(), problem: Some("wrong".to_string()) },
    ];
    let mut r = response();
    r["answers"]["team"]["choice"] = Value::from("technical");
    assert_eq!(
        check(&model(&request()), &model(&r), &verdicts),
        check(&model(&request()), &model(&r), &Vec::new())
    );
}

#[test]
fn a_legend_echoes_objects_whatever_their_member_order() {
    let q = parse(r#"{"questions": {"s": {"type": "score", "criteria": [{"a": 1, "b": [2.5]}]}}}"#);
    let r = parse(r#"{"model": "m", "usage": {"output_tokens": 0}, "answers": {"s": {
        "type": "score", "score": 0, "confidence": 1,
        "probabilities": {"0": 1},
        "legend": [{"b": [2.5], "a": 1}]
    }}}"#);
    assert_eq!(check(&model(&q), &model(&r), &Vec::new()), Vec::<String>::new());
}
