use antigravity_cli::json::{as_i64, number_field, parse_json, string_field, JsonValue};
use antigravity_cli::report::{format_credit, report_lines, ReportLine};
use antigravity_cli::usage::{
    parse_model_quota, parse_user_status, usage_from_reply, AntigravityCliUsage, CreditBalance,
    ModelQuota, UsageError,
};

const STATUS: &str = r#"{
    "userStatus": {
        "name": "Test User",
        "email": "test@example.com",
        "planStatus": {
            "planInfo": {
                "planName": "Pro",
                "teamsTier": "TEAMS_TIER_PRO",
                "monthlyPromptCredits": 50000,
                "monthlyFlowCredits": 150000
            },
            "availablePromptCredits": 500,
            "availableFlowCredits": 100
        },
        "cascadeModelConfigData": {
            "clientModelConfigs": [
                {
                    "label": "Gemini 3.1 Pro (High)",
                    "quotaInfo": {
                        "remainingFraction": 1,
                        "resetTime": "2026-05-20T10:19:58Z"
                    }
                },
                { "label": "no-quota-model" }
            ]
        }
    }
}"#;

fn json(text: &str) -> JsonValue {
    parse_json(text).unwrap()
}

fn fraction(model: &ModelQuota) -> Option<f64> {
    model.remaining_fraction.as_ref().and_then(|text| text.parse().ok())
}

#[test]
fn as_i64_accepts_number_and_string() {
    assert_eq!(as_i64(&json("50000")), Some(50000));
    assert_eq!(as_i64(&json("\"16384\"")), Some(16384));
    assert_eq!(as_i64(&json("true")), None);
}

#[test]
fn as_i64_keeps_to_the_range() {
    assert_eq!(as_i64(&json("-9223372036854775808")), Some(i64::MIN));
    assert_eq!(as_i64(&json("9223372036854775807")), Some(i64::MAX));
    assert_eq!(as_i64(&json("9223372036854775808")), None);
    assert_eq!(as_i64(&json("1.5")), None);
    assert_eq!(as_i64(&json("1e3")), None);
    assert_eq!(as_i64(&json("\"-9223372036854775808\"")), Some(i64::MIN));
    assert_eq!(as_i64(&json("\"9223372036854775808\"")), None);
    assert_eq!(as_i64(&json("\"+7\"")), Some(7));
    assert_eq!(as_i64(&json("\" 7\"")), None);
    assert_eq!(as_i64(&json("\"\"")), None);
    assert_eq!(as_i64(&json("null")), None);
    assert_eq!(as_i64(&json("[1]")), None);
}

#[test]
fn parse_user_status_extracts_credits_and_models() {
    let json = json(STATUS);

    let usage = parse_user_status(34163, &json).unwrap();
    assert_eq!(usage.plan_name.as_deref(), Some("Pro"));
    assert_eq!(usage.prompt_credits.available, Some(500));
    assert_eq!(usage.prompt_credits.monthly, Some(50000));
    assert_eq!(usage.flow_credits.available, Some(100));
    assert_eq!(usage.models.len(), 2);
    assert_eq!(usage.models[0].label, "Gemini 3.1 Pro (High)");
    assert_eq!(fraction(&usage.models[0]), Some(1.0));
    assert_eq!(fraction(&usage.models[1]), None);
}

#[test]
fn parse_user_status_rejects_missing_user_status() {
    let json = json(r#"{ "somethingElse": {} }"#);
    assert!(parse_user_status(34163, &json).is_err());
}

#[test]
fn a_snapshot_holds_every_field() {
    let usage = usage_from_reply(34163, &format!(" \n{STATUS}\r\n")).unwrap();
    assert_eq!(usage.port, 34163);
    assert_eq!(usage.name.as_deref(), Some("Test User"));
    assert_eq!(usage.email.as_deref(), Some("test@example.com"));
    assert_eq!(usage.teams_tier.as_deref(), Some("TEAMS_TIER_PRO"));
    assert_eq!(usage.flow_credits.monthly, Some(150000));
    assert_eq!(usage.models[0].reset_time.as_deref(), Some("2026-05-20T10:19:58Z"));
    assert_eq!(usage.models[1].label, "no-quota-model");
    assert_eq!(usage.models[1].reset_time, None);
}

#[test]
fn an_empty_status_gives_an_empty_snapshot() {
    let usage = usage_from_reply(1, r#"{"userStatus":{}}"#).unwrap();
    assert_eq!(usage.name, None);
    assert_eq!(usage.prompt_credits, CreditBalance::default());
    assert_eq!(usage.flow_credits, CreditBalance { available: None, monthly: None });
    assert!(usage.models.is_empty());
}

#[test]
fn quoted_credits_are_credits() {
    let text = r#"{"userStatus":{"planStatus":{"availablePromptCredits":"12","planInfo":{"monthlyFlowCredits":"-3"}}}}"#;
    let usage = usage_from_reply(1, text).unwrap();
    assert_eq!(usage.prompt_credits.available, Some(12));
    assert_eq!(usage.flow_credits.monthly, Some(-3));
    assert_eq!(usage.flow_credits.available, None);
}

#[test]
fn models_without_a_label_are_left_out() {
    let text = r#"{"userStatus":{"cascadeModelConfigData":{"clientModelConfigs":[
        {"label":"a"}, {}, {"label":7}, 5, {"label":"b","quotaInfo":{"remainingFraction":"0.25"}},
        {"label":"c","quotaInfo":{"remainingFraction":true,"resetTime":1}}
    ]}}}"#;
    let usage = usage_from_reply(1, text).unwrap();
    let labels: Vec<&str> = usage.models.iter().map(|m| m.label.as_str()).collect();
    assert_eq!(labels, vec!["a", "b", "c"]);
    assert_eq!(fraction(&usage.models[1]), Some(0.25));
    assert_eq!(usage.models[2].remaining_fraction, None);
    assert_eq!(usage.models[2].reset_time, None);
    let text = r#"{"userStatus":{"cascadeModelConfigData":{"clientModelConfigs":{"label":"a"}}}}"#;
    assert!(usage_from_reply(1, text).unwrap().models.is_empty());
}

#[test]
fn fractions_read_as_the_number_they_write() {
    let cases = ["0.1", "1", "0", "-0.0", "1e-7", "123456789012345678901234567890", "0.30000000000000004"];
    for text in cases {
        let config = json(&format!(
            r#"{{"label":"m","quotaInfo":{{"remainingFraction":{text}}}}}"#
        ));
        let model = parse_model_quota(&config).unwrap();
        let wanted: f64 = text.parse().unwrap();
        assert_eq!(fraction(&model), Some(wanted.clamp(0.0, 1.0)));
    }
    assert_eq!(number_field(&json("\"0.5\"")).as_deref(), Some("0.5"));
    assert_eq!(number_field(&json("\"abc\"")), None);
    assert_eq!(number_field(&json("null")), None);
    assert!(parse_model_quota(&json("{}")).is_none());
}

#[test]
fn a_refusal_tells_code_and_message() {
    let error = usage_from_reply(1, r#"{"code":"unauthenticated","message":"sign in"}"#).unwrap_err();
    assert_eq!(error.message(), "agy GetUserStatus failed (unauthenticated): sign in");
    let error = usage_from_reply(1, r#"{"userStatus":null,"message":"sign in"}"#).unwrap_err();
    assert_eq!(error.message(), "agy GetUserStatus failed (error): sign in");
    assert!(matches!(error, UsageError::Refused(_, _)));
    let error = usage_from_reply(1, r#"{"userStatus":[],"message":5}"#).unwrap_err();
    assert!(matches!(error, UsageError::NoUserStatus));
    assert_eq!(error.message(), "GetUserStatus response has no `userStatus` object");
    let error = usage_from_reply(1, "7").unwrap_err();
    assert!(matches!(error, UsageError::NoUserStatus));
}

#[test]
fn what_is_no_document_is_refused() {
    for text in ["", "{", "{} {}", "nonsense"] {
        let error = usage_from_reply(1, text).unwrap_err();
        assert!(matches!(error, UsageError::NotJson(_)));
        assert_eq!(error.message(), "parsing GetUserStatus response");
    }
}

#[test]
fn documents_are_read_in_full() {
    let value = json(r#"{"a":[null,true,-2,2.5,"t"],"b":{"a":"deep"},"b":{"a":"last"}}"#);
    let items = value.get("a").unwrap().as_array().unwrap();
    assert_eq!(items.len(), 5);
    assert!(matches!(items[0], JsonValue::Null));
    assert!(matches!(items[1], JsonValue::Bool(true)));
    assert!(matches!(items[2], JsonValue::Number(Some(-2), _)));
    assert!(matches!(items[3], JsonValue::Number(None, _)));
    assert_eq!(items[4].as_text().unwrap(), "t");
    assert_eq!(string_field(value.get("b").unwrap(), "a").as_deref(), Some("last"));
    assert!(value.is_object());
    assert!(value.get("c").is_none());
    assert!(items[0].get("a").is_none());
    assert!(!items[0].is_object());
    assert_eq!(string_field(&value, "a"), None);
}

#[test]
fn credits_are_shown() {
    let credit = |available: Option<i64>, monthly: Option<i64>| {
        format_credit(&CreditBalance { available, monthly })
    };
    assert_eq!(credit(Some(500), Some(50000)), "500 available / 50000 monthly");
    assert_eq!(credit(Some(0), None), "0 available");
    assert_eq!(credit(None, Some(-7)), "-7 monthly");
    assert_eq!(
        credit(Some(i64::MIN), Some(i64::MAX)),
        "-9223372036854775808 available / 9223372036854775807 monthly"
    );
    assert_eq!(credit(None, None), "(unavailable)");
}

fn shown(lines: Vec<ReportLine>) -> Vec<String> {
    lines
        .into_iter()
        .map(|line| format!("{}[{}]{}", line.lead, line.dim, line.tail))
        .collect()
}

#[test]
fn the_report_shows_account_and_models() {
    let usage = usage_from_reply(1, STATUS).unwrap();
    let remaining = vec![Some("100%".to_string()), None];
    let wanted = vec![
        "  [account:] Test User <test@example.com>".to_string(),
        "  [plan:   ] Pro (TEAMS_TIER_PRO)".to_string(),
        "  [prompt: ] 500 available / 50000 monthly".to_string(),
        "  [flow:   ] 100 available / 150000 monthly".to_string(),
        "  [models:]".to_string(),
        format!("    - {:<34} {} left  resets [2026-05-20T10:19:58Z]", "Gemini 3.1 Pro (High)", "100%"),
        format!("    - {:<34} {} left  resets [-]", "no-quota-model", "  ?"),
    ];
    assert_eq!(shown(report_lines(&usage, &remaining)), wanted);
}

#[test]
fn the_report_copes_with_what_is_missing() {
    let mut usage: AntigravityCliUsage = usage_from_reply(1, r#"{"userStatus":{}}"#).unwrap();
    let lines = shown(report_lines(&usage, &vec![]));
    assert_eq!(lines.len(), 4);
    assert_eq!(lines[0], "  [account:] (unknown account)");
    assert_eq!(lines[1], "  [plan:   ] (unknown plan)");
    assert_eq!(lines[3], "  [flow:   ] (unavailable)");
    usage.email = Some("e".to_string());
    usage.plan_name = Some("p".to_string());
    let lines = shown(report_lines(&usage, &vec![]));
    assert_eq!(lines[0], "  [account:] e");
    assert_eq!(lines[1], "  [plan:   ] p");
    usage.name = Some("n".to_string());
    usage.email = None;
    usage.plan_name = None;
    usage.teams_tier = Some("t".to_string());
    let lines = shown(report_lines(&usage, &vec![]));
    assert_eq!(lines[0], "  [account:] n");
    assert_eq!(lines[1], "  [plan:   ] t");
}

#[test]
fn labels_are_padded_by_characters() {
    let mut usage = usage_from_reply(1, r#"{"userStatus":{}}"#).unwrap();
    for label in ["ü", &"x".repeat(34), &"x".repeat(40)] {
        usage.models = vec![ModelQuota {
            label: label.to_string(),
            remaining_fraction: None,
            reset_time: Some("soon".to_string()),
        }];
        let lines = shown(report_lines(&usage, &vec![Some(" 50%".to_string())]));
        assert_eq!(lines[5], format!("    - {label:<34}  50% left  resets [soon]"));
    }
}

#[test]
fn a_quoted_fraction_must_write_a_number() {
    for (text, wanted) in [("abc", None), ("", None), ("50%", None), ("0.5", Some(0.5)), ("5e-1", Some(0.5))] {
        let config = json(&format!(
            r#"{{"label":"m","quotaInfo":{{"remainingFraction":"{text}"}}}}"#
        ));
        let model = parse_model_quota(&config).unwrap();
        assert_eq!(model.remaining_fraction.is_some(), wanted.is_some());
        assert_eq!(fraction(&model), wanted);
    }
}

fn kept_fraction(value: JsonValue) -> Option<String> {
    let quota = JsonValue::Object(vec![("remainingFraction".to_string(), value)]);
    let config = JsonValue::Object(vec![
        ("label".to_string(), JsonValue::Text("m".to_string())),
        ("quotaInfo".to_string(), quota),
    ]);
    parse_model_quota(&config).unwrap().remaining_fraction
}

fn held(text: &str) -> Option<String> {
    kept_fraction(JsonValue::Text(text.to_string()))
}

#[test]
fn fractions_are_held_between_zero_and_one() {
    assert_eq!(kept_fraction(json("1.5")).as_deref(), Some("1"));
    assert_eq!(kept_fraction(json("-3")).as_deref(), Some("0"));
    assert_eq!(kept_fraction(json("1e9")).as_deref(), Some("1"));
    assert_eq!(kept_fraction(json("123456789012345678901234567890")).as_deref(), Some("1"));
    assert_eq!(kept_fraction(json("0.25")).as_deref(), Some("0.25"));
    assert_eq!(held("inf").as_deref(), Some("1"));
    assert_eq!(held("-Infinity").as_deref(), Some("0"));
    assert_eq!(held("nan"), None);
    assert_eq!(held("-NaN"), None);
    assert_eq!(held("1").as_deref(), Some("1"));
    assert_eq!(held("+1.000").as_deref(), Some("+1.000"));
    assert_eq!(held("10e-1").as_deref(), Some("10e-1"));
    assert_eq!(held("0.001e3").as_deref(), Some("0.001e3"));
    assert_eq!(held("0.0010001e3").as_deref(), Some("1"));
    assert_eq!(held("0.0011e3").as_deref(), Some("1"));
    assert_eq!(held("1.0000000000000000000000000001").as_deref(), Some("1"));
    assert_eq!(held("-0.000").as_deref(), Some("-0.000"));
    assert_eq!(held("-0e999999999999999999999999").as_deref(), Some("-0e999999999999999999999999"));
    assert_eq!(held("5e999999999999999999999999").as_deref(), Some("1"));
    assert_eq!(held("5e-999999999999999999999999").as_deref(), Some("5e-999999999999999999999999"));
    assert_eq!(held("-5e-999999999999999999999999").as_deref(), Some("0"));
}

fn check_held(text: &str) {
    let wanted = match text.parse::<f64>() {
        Ok(number) if !number.is_nan() => Some(number.clamp(0.0, 1.0)),
        _ => None,
    };
    let found = held(text).map(|kept| kept.parse::<f64>().unwrap());
    assert_eq!(found, wanted);
}

fn writes_a_number(text: &str) -> bool {
    number_field(&JsonValue::Text(text.to_string())).is_some()
}

#[test]
fn texts_write_numbers_as_the_standard_library_reads_them() {
    let letters = ['0', '1', '7', '.', 'e', '+', '-', ' '];
    let mut texts: Vec<String> = vec![String::new()];
    let mut start = 0;
    for _ in 0..6 {
        let end = texts.len();
        for i in start..end {
            for c in letters {
                let mut text = texts[i].clone();
                text.push(c);
                texts.push(text);
            }
        }
        start = end;
    }
    for text in &texts {
        assert_eq!(writes_a_number(text), text.parse::<f64>().is_ok());
        check_held(text);
    }
}

#[test]
fn words_write_numbers_as_the_standard_library_reads_them() {
    let words = [
        "inf", "INF", "Inf", "infinity", "Infinity", "INFINITY", "nan", "NaN", "NAN", "infinit", "infinityx",
        "nanx", "na", "in", "i", "e", "einf", "1inf", "inf1", "infe1", "1e400", "1e-400", "1e99999999999999999999",
        "123456789012345678901234567890.5E+07", "1_000", "0x10", "1.2.3", "1e2e3", "1e2.5", "\u{661}", "½", "1\n",
    ];
    for word in words {
        for sign in ["", "+", "-", "+-", " "] {
            let text = format!("{sign}{word}");
            assert_eq!(writes_a_number(&text), text.parse::<f64>().is_ok());
            check_held(&text);
        }
    }
}
