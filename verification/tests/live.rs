use kime_compat::fixtures::{alias_model, case_name, check_fixture, fixtures_summary, live_cases, with_state};
use kime_compat::json::{duplicate, set_member, to_text, Json, Number, NumberKind};
use kime_compat::live::{
    check_case_call, check_models, check_models_call, parse, parse_response, request_head, unchunk,
    Server,
};
use serde_json::Value;

fn order_key(x: f64) -> i64 {
    if x == 0.0 {
        return 0;
    }
    let k = x.to_bits() as i64;
    if k < 0 {
        k ^ i64::MAX
    } else {
        k
    }
}

fn number(n: &serde_json::Number) -> Number {
    let x = n.as_f64().unwrap_or(0.0);
    let kind = if let Some(u) = n.as_u64() {
        NumberKind::PosInt(u)
    } else if let Some(i) = n.as_i64() {
        NumberKind::NegInt(i)
    } else {
        NumberKind::Float
    };
    Number {
        kind,
        order: order_key(x),
        unit: x.is_finite() && (0.0..=1.0).contains(&x),
        hundredths: (x * 100.0).round() as i64,
        text: n.to_string(),
        shown: format!("{x:?}"),
    }
}

fn model(v: &Value) -> Json {
    match v {
        Value::Null => Json::Null,
        Value::Bool(b) => Json::Bool(*b),
        Value::Number(n) => Json::Number(number(n)),
        Value::String(s) => Json::String(s.clone()),
        Value::Array(xs) => Json::Array(xs.iter().map(model).collect()),
        Value::Object(m) => Json::Object(m.iter().map(|(k, v)| (k.clone(), model(v))).collect()),
    }
}

fn json(text: &str) -> Value {
    serde_json::from_str(text).unwrap()
}

#[test]
fn parses_a_plain_and_a_chunked_response() {
    let plain = b"HTTP/1.1 200 OK\r\ncontent-length: 8\r\n\r\n{\"a\": 1}";
    assert_eq!(parse(plain).unwrap(), (200, json("{\"a\": 1}")));
    let chunked = b"HTTP/1.1 422 Unprocessable\r\nTransfer-Encoding: chunked\r\n\r\n4\r\n{\"a\"\r\n4\r\n: 2}\r\n0\r\n\r\n";
    assert_eq!(parse(chunked).unwrap(), (422, json("{\"a\": 2}")));
    assert_eq!(
        parse(b"HTTP/1.1 500 x\r\n\r\noops").unwrap(),
        (500, Value::String("oops".to_string()))
    );
}

#[test]
fn refuses_https_and_paths() {
    assert!(Server::new("https://api.typesafe.ai").is_err());
    assert!(Server::new("http://127.0.0.1:8000/v1").is_err());
    assert!(Server::new("http://127.0.0.1:8000/").is_ok());
}

#[test]
fn a_null_release_date_fails() {
    let body = json(r#"{"models": [{"name": "laya", "description": "d", "release_date": null}]}"#);
    assert_eq!(
        check_models(&model(&body)),
        vec!["GET /v1/models: models[0].release_date is not a string"]
    );
}

#[test]
fn a_server_keeps_only_host_and_port() {
    assert_eq!(Server::new("http://http://127.0.0.1:8000//").unwrap().address(), "127.0.0.1:8000");
    assert_eq!(Server::new("localhost:1").unwrap().address(), "localhost:1");
    assert_eq!(
        Server::new("https://x").unwrap_err(),
        "https://x: live only speaks plain http, to a server on this machine"
    );
    assert_eq!(Server::new("http://").unwrap_err(), "http://: expected http://host:port");
    assert_eq!(Server::new("").unwrap_err(), ": expected http://host:port");
}

#[test]
fn unchunk_reads_sizes_as_the_standard_library_does() {
    assert_eq!(unchunk(b"4;ext=1\r\nabcd\r\n0\r\n\r\n").unwrap(), b"abcd".to_vec());
    assert_eq!(unchunk(b" A \r\n0123456789\r\n+1\r\nz\r\n0\r\n").unwrap(), b"0123456789z".to_vec());
    assert_eq!(unchunk(b"\xc2\xa04\xe3\x80\x80\r\nabcd\r\n0\r\n").unwrap(), b"abcd".to_vec());
    assert_eq!(unchunk(b"0\r\n").unwrap(), Vec::<u8>::new());
}

#[test]
fn unchunk_reports_each_framing_error() {
    assert_eq!(unchunk(b"4").unwrap_err(), "a chunk without a size line");
    assert_eq!(
        unchunk(b"\r\n").unwrap_err(),
        "chunk size \"\": cannot parse integer from empty string"
    );
    assert_eq!(
        unchunk(b"x\r\n").unwrap_err(),
        "chunk size \"x\": invalid digit found in string"
    );
    assert_eq!(
        unchunk(b"-1\r\n").unwrap_err(),
        "chunk size \"-1\": invalid digit found in string"
    );
    assert_eq!(
        unchunk(b"+\r\n").unwrap_err(),
        "chunk size \"+\": invalid digit found in string"
    );
    assert_eq!(
        unchunk(b"fffffffffffffffffffff\r\n").unwrap_err(),
        "chunk size \"fffffffffffffffffffff\": number too large to fit in target type"
    );
    assert_eq!(
        unchunk(b"\xff\r\n").unwrap_err(),
        "chunk size \"\u{fffd}\": invalid digit found in string"
    );
    assert_eq!(unchunk(b"5\r\nabc").unwrap_err(), "a chunk shorter than its size");
    assert_eq!(unchunk(b"3\r\nabc\r").unwrap_err(), "a chunk without its line end");
    assert_eq!(unchunk(b"3\r\nabc\r\n").unwrap_err(), "a chunk without a size line");
}

#[test]
fn parse_reports_each_head_and_body_error() {
    assert_eq!(parse_response(b"HTTP/1.1 200 OK\r\n").unwrap_err(), "no end of headers");
    assert_eq!(
        parse_response(b"HTTP/1.1\r\n\r\n").unwrap_err(),
        "no status in \"HTTP/1.1\""
    );
    assert_eq!(
        parse_response(b"HTTP/1.1 70000 Big\r\n\r\n").unwrap_err(),
        "no status in \"HTTP/1.1 70000 Big\""
    );
    assert_eq!(
        parse_response(b"HTTP/1.1 200 OK\r\n\r\n\xff").unwrap_err(),
        "invalid utf-8 sequence of 1 bytes from index 0"
    );
    assert_eq!(
        parse_response(b"HTTP/1.1 200 OK\r\nx: 1\r\nTRANSFER-ENCODING: gzip, CHUNKED\r\n\r\n2\r\nok\r\n0\r\n\r\n")
            .unwrap(),
        (200, "ok".to_string())
    );
    assert_eq!(
        parse_response(b"HTTP/1.1 200 OK\r\nx-transfer-encoding: chunked\r\n\r\n2\r\nok").unwrap(),
        (200, "2\r\nok".to_string())
    );
    assert_eq!(
        parse_response(b"  HTTP/1.1\t+204\r\n\r\n").unwrap(),
        (204, String::new())
    );
}

#[test]
fn the_models_shape_is_checked() {
    assert_eq!(check_models(&model(&json("[]"))), vec!["GET /v1/models: no models array"]);
    assert_eq!(
        check_models(&model(&json(r#"{"models": []}"#))),
        vec!["GET /v1/models: the models array is empty"]
    );
    let body = json(r#"{"models": [{"name": "a", "description": "b", "release_date": "c"}, 3]}"#);
    assert_eq!(
        check_models(&model(&body)),
        vec![
            "GET /v1/models: models[1].name is not a string",
            "GET /v1/models: models[1].description is not a string",
            "GET /v1/models: models[1].release_date is not a string",
        ]
    );
}

#[test]
fn json_text_is_compact_and_escaped() {
    let v = json(r#"{"a": [1, -2, 0.5, true, null], "b\n": "q\"\u0001", "c": {}}"#);
    assert_eq!(to_text(&model(&v)), v.to_string());
    assert_eq!(to_text(&model(&v)), "{\"a\":[1,-2,0.5,true,null],\"b\\n\":\"q\\\"\\u0001\",\"c\":{}}");
}

#[test]
fn set_member_replaces_in_place_or_appends() {
    let mut j = model(&json(r#"{"a": 1, "b": 2}"#));
    set_member(&mut j, "a".to_string(), Json::Bool(true));
    set_member(&mut j, "c".to_string(), Json::Null);
    assert_eq!(to_text(&j), "{\"a\":true,\"b\":2,\"c\":null}");
    let mut n = Json::Null;
    set_member(&mut n, "x".to_string(), Json::String("y".to_string()));
    assert_eq!(to_text(&n), "{\"x\":\"y\"}");
}

#[test]
fn a_request_is_sent_as_an_alias_once() {
    let mut j = model(&json(r#"{"model": "kime-v1", "questions": {}}"#));
    alias_model(&mut j);
    assert_eq!(to_text(&j), "{\"model\":\"jev-latest\",\"questions\":{}}");
    let mut k = model(&json(r#"{"questions": {}, "model": "laya-latest"}"#));
    alias_model(&mut k);
    assert_eq!(to_text(&k), "{\"questions\":{},\"model\":\"jev-latest\"}");
    with_state(&mut k, Json::String("a text".to_string()));
    assert_eq!(to_text(&k), "{\"questions\":{},\"model\":\"jev-latest\",\"state\":\"a text\"}");
    let mut j = model(&json(r#"{"model": "jev-latest", "questions": {}}"#));
    alias_model(&mut j);
    assert_eq!(to_text(&j), "{\"model\":\"jev-latest\",\"questions\":{}}");
}

#[test]
fn fixtures_sum_up() {
    assert_eq!(fixtures_summary(0, &vec![]).unwrap_err(), "no fixtures found, which means this is checking nothing");
    assert_eq!(fixtures_summary(3, &vec![]).unwrap(), "3 fixtures obey the response contract\n");
    assert_eq!(
        fixtures_summary(3, &vec!["a".to_string(), "b".to_string()]).unwrap_err(),
        "a\nb"
    );
    assert_eq!(case_name("texts.json", 12, "systemone/a"), "texts.json[12] with systemone/a");
    let request = model(&json(r#"{"questions": {}}"#));
    let response = model(&json(r#"{"answers": {}, "model": "m", "usage": {"output_tokens": 0}}"#));
    assert_eq!(
        check_fixture(&"s/a".to_string(), &Ok(request), &Err("bad file".to_string()), &vec![]),
        vec!["bad file"]
    );
    let request = model(&json(r#"{"questions": []}"#));
    assert_eq!(
        check_fixture(&"s/a".to_string(), &Ok(request), &Ok(response), &vec![]),
        vec!["s/a: the request has no questions object"]
    );
}

#[test]
fn a_live_run_reports_calls() {
    let (found, go_on) = check_models_call(&Err("127.0.0.1:1: refused".to_string()));
    assert_eq!(found, vec!["127.0.0.1:1: refused"]);
    assert!(!go_on);
    let (found, go_on) = check_models_call(&Ok((404, model(&json(r#"{"detail": "no"}"#)))));
    assert_eq!(found, vec!["GET /v1/models: 404 {\"detail\":\"no\"}"]);
    assert!(go_on);
    let request = model(&json(r#"{"questions": {}}"#));
    assert_eq!(
        check_case_call(&"c".to_string(), &request, &Ok((500, Json::String("x".to_string()))), &vec![]),
        vec!["c: 500 \"x\""]
    );
    assert_eq!(
        check_case_call(&"c".to_string(), &request, &Ok((200, model(&json("{}")))), &vec![]),
        vec!["c: the response has no answers object"]
    );
}

#[test]
fn the_surfaces_table_is_listed() {
    let table = "# surface\tmilestone\nTypeSafe API\tM1\r\n\nLaya\tM1\tx\n#x\nlast";
    assert_eq!(
        kime_compat::fixtures::surfaces(table),
        "TypeSafe API | M1\nLaya | M1 | x\nlast\n"
    );
    assert_eq!(kime_compat::fixtures::surfaces(""), "");
    assert_eq!(kime_compat::fixtures::surfaces("a\r"), "a\r\n");
}

#[test]
fn chunked_coding_round_trips() {
    let chunks: Vec<Vec<u8>> = vec![b"abcdefghijklmnopqrstuvwxyz".to_vec(), b"\r\n".to_vec(), vec![0xff; 300]];
    let mut body = Vec::new();
    for c in &chunks {
        body.extend_from_slice(format!("{:x}\r\n", c.len()).as_bytes());
        body.extend_from_slice(c);
        body.extend_from_slice(b"\r\n");
    }
    body.extend_from_slice(b"0\r\n\r\n");
    assert_eq!(unchunk(&body).unwrap(), chunks.concat());
    body.extend_from_slice(b"x-trailer: anything\r\n\r\n");
    assert_eq!(unchunk(&body).unwrap(), chunks.concat());
}

#[test]
fn a_well_formed_models_body_passes() {
    let body = json(r#"{"models": [{"name": "laya", "description": "d", "release_date": "2025-01-01"}]}"#);
    assert_eq!(check_models(&model(&body)), Vec::<String>::new());
    let (found, go_on) = check_models_call(&Ok((200, model(&body))));
    assert!(found.is_empty() && go_on);
}

#[test]
fn an_alias_is_set_only_once() {
    let mut j = Json::Null;
    alias_model(&mut j);
    alias_model(&mut j);
    assert_eq!(to_text(&j), "{\"model\":\"jev-latest\"}");
}

#[test]
fn a_request_head_names_host_and_length() {
    let server = Server::new("http://127.0.0.1:8000").unwrap();
    assert_eq!(
        request_head("POST", "/v1/systemone", &server, 42),
        "POST /v1/systemone HTTP/1.1\r\nHost: 127.0.0.1:8000\r\nAccept: application/json\r\nContent-Type: application/json\r\nContent-Length: 42\r\nConnection: close\r\n\r\n"
    );
}

#[test]
fn live_cases_ask_every_fixture_about_every_text() {
    let templates = vec![
        ("a/one".to_string(), model(&json(r#"{"model": "kime-v1", "state": "x"}"#))),
        ("b/two".to_string(), model(&json(r#"{"model": "jev-latest", "questions": {}}"#))),
    ];
    let texts = model(&json(r#"["first", "second", 3]"#));
    let cases = live_cases(&templates, "t.json", &texts).unwrap();
    let shown: Vec<(String, String)> =
        cases.iter().map(|(n, r)| (n.clone(), to_text(r))).collect();
    let want = [
        ("a/one", r#"{"model":"jev-latest","state":"x"}"#),
        ("b/two", r#"{"model":"jev-latest","questions":{}}"#),
        ("t.json[0] with a/one", r#"{"model":"jev-latest","state":"first"}"#),
        ("t.json[0] with b/two", r#"{"model":"jev-latest","questions":{},"state":"first"}"#),
        ("t.json[1] with a/one", r#"{"model":"jev-latest","state":"second"}"#),
        ("t.json[1] with b/two", r#"{"model":"jev-latest","questions":{},"state":"second"}"#),
        ("t.json[2] with a/one", r#"{"model":"jev-latest","state":3}"#),
        ("t.json[2] with b/two", r#"{"model":"jev-latest","questions":{},"state":3}"#),
    ];
    let want: Vec<(String, String)> =
        want.iter().map(|(n, r)| (n.to_string(), r.to_string())).collect();
    assert_eq!(shown, want);
    // The fixtures' own requests are not changed.
    assert_eq!(to_text(&templates[0].1), r#"{"model":"kime-v1","state":"x"}"#);
}

#[test]
fn live_cases_without_texts_are_the_fixtures() {
    let templates = vec![("a/one".to_string(), Json::Null)];
    let cases = live_cases(&templates, "", &Json::Array(Vec::new())).unwrap();
    assert_eq!(cases.len(), 1);
    assert_eq!(cases[0].0, "a/one");
    assert_eq!(to_text(&cases[0].1), r#"{"model":"jev-latest"}"#);
    let none: Vec<(String, Json)> = Vec::new();
    assert!(live_cases(&none, "t.json", &model(&json(r#"["x"]"#))).unwrap().is_empty());
}

#[test]
fn live_cases_need_a_list_of_texts() {
    let templates = vec![("a/one".to_string(), Json::Null)];
    let texts = model(&json(r#"{"text": "x"}"#));
    assert_eq!(
        live_cases(&templates, "corpus.json", &texts).unwrap_err(),
        "corpus.json: expected a list of strings"
    );
    assert_eq!(
        live_cases(&templates, "c.json", &Json::String("x".to_string())).unwrap_err(),
        "c.json: expected a list of strings"
    );
}

#[test]
fn a_duplicate_prints_the_same() {
    let j = model(&json(r#"{"a": [1, -2, 0.5, "s", null, true], "b": {"c": {}}}"#));
    let d = duplicate(&j);
    assert_eq!(to_text(&d), to_text(&j));
    assert_eq!(to_text(&d), r#"{"a":[1,-2,0.5,"s",null,true],"b":{"c":{}}}"#);
}

#[test]
fn a_size_near_the_top_of_usize_is_a_short_chunk() {
    if usize::BITS == 64 {
        assert_eq!(unchunk(b"ffffffffffffffff\r\nab").unwrap_err(), "a chunk shorter than its size");
    }
}
