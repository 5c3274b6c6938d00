use video_tagger::ai::{
    compact_for_log, compact_name, decision_from_value, default_ai_text_settings, evenly_spaced_indices,
    extract_json_object, image_data_url, base64_text, model_json_text, parse_final_result, point_label,
    read_stream_line, service_props_from_json, stream_delta, validate_ai_text_settings_value, AiModelDecision,
    AiTextSchema, AnalysisPlan, AnalysisStep, RetryState, RetryStep, ScoreDirection, StreamCollector, StreamLine,
    AiAnalysisResult,
};
use video_tagger::json::{JsonNumber, JsonValue};

fn convert(v: &serde_json::Value) -> JsonValue {
    match v {
        serde_json::Value::Null => JsonValue::Null,
        serde_json::Value::Bool(b) => JsonValue::Bool(*b),
        serde_json::Value::Number(n) => {
            if let Some(u) = n.as_u64() {
                JsonValue::Number(JsonNumber::PosInt(u))
            } else if let Some(i) = n.as_i64() {
                JsonValue::Number(JsonNumber::NegInt(i))
            } else {
                JsonValue::Number(JsonNumber::Float(n.to_string()))
            }
        }
        serde_json::Value::String(s) => JsonValue::Str(s.clone()),
        serde_json::Value::Array(items) => JsonValue::Array(items.iter().map(convert).collect()),
        serde_json::Value::Object(members) => {
            JsonValue::Object(members.iter().map(|(k, v)| (k.clone(), convert(v))).collect())
        }
    }
}

fn json(text: &str) -> JsonValue {
    convert(&serde_json::from_str::<serde_json::Value>(text).unwrap())
}

fn default_schema() -> AiTextSchema {
    validate_ai_text_settings_value(&json(&default_ai_text_settings())).unwrap()
}

#[test]
fn default_settings_are_valid() {
    let schema = default_schema();
    let names: Vec<&str> = schema.tag_groups.iter().map(|g| g.name.as_str()).collect();
    assert_eq!(names, vec!["声音类型", "视频内容", "视频画质"]);
    assert_eq!(schema.tag_groups[0].max_select, 2);
    assert_eq!(schema.tag_groups[0].tags, vec!["无人声", "人声", "音乐", "嘈杂"]);
    assert_eq!(schema.score_rules.len(), 3);
    assert_eq!(schema.score_rules[2].name, "声音嘈杂");
    assert_eq!(schema.score_rules[2].direction, ScoreDirection::Subtract);
    assert_eq!(schema.score_rules[2].max_delta, 20);
}

#[test]
fn settings_errors_name_the_problem() {
    let err = |t: &str| validate_ai_text_settings_value(&json(t)).unwrap_err();
    assert_eq!(err("{}"), "AI 文本设置缺少 tag_groups 对象");
    assert_eq!(err(r#"{"tag_groups": {}}"#), "tag_groups 不能为空");
    assert_eq!(err(r#"{"tag_groups": {"g": {"tags": ["a"]}}}"#), "tag_groups.g.max_select 必须是非负整数");
    assert_eq!(err(r#"{"tag_groups": {"g": {"max_select": 1, "tags": "a"}}}"#), "tag_groups.g.tags 必须是字符串数组");
    assert_eq!(err(r#"{"tag_groups": {"g": {"max_select": 1, "tags": []}}}"#), "tag_groups.g.tags 不能为空");
    assert_eq!(err(r#"{"tag_groups": {"g": {"max_select": 1, "tags": [1]}}}"#), "tag_groups.g.tags 中存在非字符串标签");
    assert_eq!(err(r#"{"tag_groups": {"g": {"max_select": 1, "tags": ["  "]}}}"#), "tag_groups.g.tags 中存在空标签");
    let groups = r#""tag_groups": {"g": {"max_select": 1, "tags": ["a"]}}"#;
    assert_eq!(err(&format!("{{{}, \"score_rules\": 3}}", groups)), "score_rules 必须是数组");
    assert_eq!(err(&format!("{{{}, \"score_rules\": [{{\"name\": \" \"}}]}}", groups)), "score_rules[].name 必须是非空字符串");
    assert_eq!(
        err(&format!("{{{}, \"score_rules\": [{{\"name\": \"r\", \"direction\": \"up\"}}]}}", groups)),
        "score_rules.r direction 无效: up"
    );
    assert_eq!(
        err(&format!("{{{}, \"score_rules\": [{{\"name\": \"r\", \"direction\": \"add\"}}]}}", groups)),
        "score_rules.r.max_delta 必须是整数"
    );
    assert_eq!(
        err(&format!("{{{}, \"score_rules\": [{{\"name\": \"r\", \"direction\": \"add\", \"max_delta\": 101}}]}}", groups)),
        "score_rules.r.max_delta 必须在 0-100"
    );
}

#[test]
fn settings_trim_and_dedup_tags() {
    let schema = validate_ai_text_settings_value(&json(
        r#"{"tag_groups": {"g": {"max_select": 2, "tags": [" a ", "b", "a"]}}}"#,
    ))
    .unwrap();
    assert_eq!(schema.tag_groups[0].tags, vec!["a", "b"]);
    assert!(schema.score_rules.is_empty());
}

#[test]
fn final_result_collects_labels_and_clamps_the_score() {
    let schema = default_schema();
    let value = json(
        r#"{"status": "final",
            "tags": {"视频内容": ["风景", "美食"], "视频画质": ["清晰"]},
            "score": {"base": 50, "details": [{"rule": "画面清晰", "delta": 20}, {"rule": "声音嘈杂", "delta": -5}], "final": 60},
            "evidence": {"summary": "画面明亮"}}"#,
    );
    let res = parse_final_result(&value, &schema).unwrap();
    assert_eq!(res.labels, vec!["风景", "美食", "清晰"]);
    assert_eq!(res.score, 60);
    assert_eq!(res.evidence_summary, "画面明亮");
}

#[test]
fn final_score_stays_within_bounds() {
    let schema = default_schema();
    let value = json(r#"{"tags": {}, "score": {"details": [{"rule": "声音嘈杂", "delta": -90}, {"rule": "声音嘈杂", "delta": -90}, {"rule": "声音嘈杂", "delta": -90}]}}"#);
    let res = parse_final_result(&value, &schema).unwrap();
    assert_eq!(res.score, 0);
    assert!(res.labels.is_empty());
    assert_eq!(res.evidence_summary, "");
}

#[test]
fn final_result_errors() {
    let schema = default_schema();
    let err = |t: &str| parse_final_result(&json(t), &schema).unwrap_err();
    assert_eq!(err(r#"{"score": {}}"#), "final.tags 必须是对象");
    assert_eq!(err(r#"{"tags": {"视频画质": ["清晰", "模糊"]}}"#), "标签栏 视频画质 选择数量超过 max_select");
    assert_eq!(err(r#"{"tags": {"视频画质": [3]}}"#), "标签栏 视频画质 中存在非字符串标签");
    assert_eq!(err(r#"{"tags": {"视频画质": ["风景"]}}"#), "标签 风景 不属于标签栏 视频画质");
    assert_eq!(err(r#"{"tags": {}}"#), "final.score 缺失");
    assert_eq!(err(r#"{"tags": {}, "score": {}}"#), "score.details 必须是数组");
    assert_eq!(err(r#"{"tags": {}, "score": {"details": [{}]}}"#), "score.details[].rule 必须是字符串");
    assert_eq!(err(r#"{"tags": {}, "score": {"details": [{"rule": "x"}]}}"#), "评分项 x 的 delta 必须是整数");
    assert_eq!(err(r#"{"tags": {}, "score": {"details": [{"rule": "x", "delta": 1}]}}"#), "评分项 x 不在 score_rules 中");
}

#[test]
fn decisions_follow_the_status() {
    let schema = default_schema();
    let more = json(r#"{"status": "need_more_samples", "reason": "太暗", "working_summary": {"visual": "v"}}"#);
    match decision_from_value(more, &schema, false).unwrap() {
        AiModelDecision::NeedMore { reason, working_summary } => {
            assert_eq!(reason, "太暗");
            assert!(matches!(working_summary, JsonValue::Object(_)));
        }
        _ => panic!("expected a request for more samples"),
    }
    match decision_from_value(json(r#"{"status": "need_more_samples"}"#), &schema, false).unwrap() {
        AiModelDecision::NeedMore { reason, working_summary } => {
            assert_eq!(reason, "证据不足");
            assert!(matches!(working_summary, JsonValue::Null));
        }
        _ => panic!("expected a request for more samples"),
    }
    let forced = decision_from_value(json(r#"{"status": "need_more_samples"}"#), &schema, true).unwrap_err();
    assert_eq!(forced, "force_final=true 时不能请求更多样本");
    let unknown = decision_from_value(json(r#"{"status": "maybe"}"#), &schema, false).unwrap_err();
    assert_eq!(unknown, "未知 status: maybe");
    let missing = decision_from_value(json(r#"{}"#), &schema, false).unwrap_err();
    assert_eq!(missing, "未知 status: ");
    let fin = decision_from_value(json(r#"{"status": "final", "tags": {}, "score": {"details": []}}"#), &schema, true).unwrap();
    assert!(matches!(fin, AiModelDecision::Final(AiAnalysisResult { score: 50, .. })));
}

#[test]
fn json_object_is_cut_out_of_the_answer() {
    assert_eq!(extract_json_object("here: {\"a\": {\"b\": 1}} done"), Some("{\"a\": {\"b\": 1}}".to_string()));
    assert_eq!(extract_json_object("} {"), None);
    assert_eq!(extract_json_object("no braces"), None);
    assert_eq!(model_json_text("x{}y"), Ok("{}".to_string()));
    assert_eq!(model_json_text("nothing"), Err("模型输出中找不到 JSON 对象".to_string()));
}

#[test]
fn point_label_has_three_digits() {
    assert_eq!(point_label(75), "point075");
    assert_eq!(point_label(0), "point000");
    assert_eq!(point_label(100), "point100");
    assert_eq!(point_label(200), "point100");
}

#[test]
fn log_text_is_shortened() {
    assert_eq!(compact_for_log("abcdef", 3), "abc...");
    assert_eq!(compact_for_log("abc", 3), "abc");
    assert_eq!(compact_for_log("视频分析", 2), "视频...");
}

#[test]
fn names_are_shortened_in_the_middle() {
    assert_eq!(compact_name("abcdefghijklmnop", 10), "abc...mnop");
    assert_eq!(compact_name("abcdefghijklmnop", 6), "abcdef");
    assert_eq!(compact_name("short", 10), "short");
}

#[test]
fn indices_spread_evenly() {
    assert_eq!(evenly_spaced_indices(10, 3), vec![0, 5, 9]);
    assert_eq!(evenly_spaced_indices(10, 1), vec![5]);
    assert_eq!(evenly_spaced_indices(0, 3), Vec::<usize>::new());
    assert_eq!(evenly_spaced_indices(10, 0), Vec::<usize>::new());
    assert_eq!(evenly_spaced_indices(4, 4), vec![0, 1, 2, 3]);
    assert_eq!(evenly_spaced_indices(3, 5), vec![0, 1, 1, 2, 2]);
}

#[test]
fn service_props_are_read_with_defaults() {
    let p = service_props_from_json(&json(r#"{"modalities": {"vision": true}, "model_path": "/m/q.gguf"}"#));
    assert!(p.vision);
    assert!(!p.audio);
    assert_eq!(p.model_alias, "/m/q.gguf");
    let q = service_props_from_json(&json(r#"{"model_alias": 3}"#));
    assert!(!q.vision);
    assert_eq!(q.model_alias, "local-model");
}

#[test]
fn stream_lines_are_classified() {
    assert!(matches!(read_stream_line(": keep-alive"), StreamLine::Skip));
    assert!(matches!(read_stream_line("   "), StreamLine::Skip));
    assert!(matches!(read_stream_line("data: [DONE]"), StreamLine::Done));
    match read_stream_line("  data: {\"x\": 1}  ") {
        StreamLine::Data(d) => assert_eq!(d, "{\"x\": 1}"),
        _ => panic!("expected data"),
    }
    match read_stream_line("data:data: y") {
        StreamLine::Data(d) => assert_eq!(d, "y"),
        _ => panic!("expected data"),
    }
}

#[test]
fn stream_delta_reads_delta_or_message() {
    let d = json(r#"{"choices": [{"delta": {"content": "你好"}}]}"#);
    assert_eq!(stream_delta(&d), Some("你好".to_string()));
    let m = json(r#"{"choices": [{"message": {"content": "done"}}]}"#);
    assert_eq!(stream_delta(&m), Some("done".to_string()));
    let keyed = json(r#"{"choices": {"0": {"delta": {"content": "k"}}}}"#);
    assert_eq!(stream_delta(&keyed), Some("k".to_string()));
    assert_eq!(stream_delta(&json(r#"{"choices": []}"#)), None);
}

#[test]
fn stream_collector_flushes_lines_and_long_text() {
    let mut c = StreamCollector::new();
    assert_eq!(c.push_delta("hello"), None);
    assert_eq!(c.push_delta(" world\nnext"), Some("hello world\nnext".to_string()));
    assert_eq!(c.push_delta(&"x".repeat(159)), None);
    assert_eq!(c.push_delta("y"), Some(format!("{}y", "x".repeat(159))));
    assert_eq!(c.push_delta(" tail "), None);
    let (log, answer) = c.finish();
    assert_eq!(log, Some("tail".to_string()));
    assert_eq!(answer.unwrap(), format!("hello world\nnext{}y tail ", "x".repeat(159)));
    let empty = StreamCollector::new();
    let (log, answer) = empty.finish();
    assert_eq!(log, None);
    assert_eq!(answer, Err("AI 返回内容为空".to_string()));
}

#[test]
fn images_and_clips_are_sent_as_base64() {
    assert_eq!(image_data_url(b"Man"), "data:image/jpeg;base64,TWFu");
    assert_eq!(base64_text(b"hello"), "aGVsbG8=");
    assert_eq!(base64_text(b""), "");
}

#[test]
fn a_failed_answer_is_retried_once() {
    let mut r = RetryState::new();
    assert!(!r.is_retry());
    assert!(matches!(r.on_outcome(Err("bad".to_string())), RetryStep::Retry));
    assert!(r.is_retry());
    assert_eq!(r.last_error, "bad");
    match r.on_outcome(Err("worse".to_string())) {
        RetryStep::GiveUp(e) => assert_eq!(e, "worse"),
        _ => panic!("expected to give up"),
    }
    let mut ok = RetryState::new();
    let res = AiAnalysisResult { labels: vec![], score: 50, evidence_summary: String::new() };
    assert!(matches!(ok.on_outcome(Ok(AiModelDecision::Final(res))), RetryStep::Accept(_)));
}

#[test]
fn analysis_ends_after_at_most_two_more_answers_than_extra_batches() {
    for extra in 0..4usize {
        let (mut plan, _) = AnalysisPlan::new(extra);
        let mut answers = 0usize;
        while !plan.finished {
            let step = plan.on_decision(AiModelDecision::NeedMore {
                reason: "r".to_string(),
                working_summary: JsonValue::Null,
            });
            answers += 1;
            assert_eq!(plan.finished, matches!(step, AnalysisStep::Done(_) | AnalysisStep::Fail(_)));
        }
        assert_eq!(answers, extra + 2);
    }
}

#[test]
fn analysis_takes_more_batches_then_forces_a_final_answer() {
    let (mut plan, first) = AnalysisPlan::new(1);
    assert!(matches!(first, AnalysisStep::Sample { batch_index: 0, force_final: false }));
    let more = |s: &str| AiModelDecision::NeedMore { reason: "r".to_string(), working_summary: JsonValue::Str(s.to_string()) };
    assert!(matches!(plan.on_decision(more("one")), AnalysisStep::Sample { batch_index: 1, force_final: true }));
    assert!(matches!(plan.working_summary, JsonValue::Str(ref s) if s == "one"));
    assert!(matches!(plan.on_decision(more("two")), AnalysisStep::FinalFromSummary));
    match plan.on_decision(more("three")) {
        AnalysisStep::Fail(e) => assert_eq!(e, "达到追加采样上限后，AI 仍未输出 final"),
        _ => panic!("expected a failure"),
    }
    let (mut single, first) = AnalysisPlan::new(0);
    assert!(matches!(first, AnalysisStep::Sample { batch_index: 0, force_final: true }));
    let res = AiAnalysisResult { labels: vec!["a".to_string()], score: 70, evidence_summary: String::new() };
    assert!(matches!(single.on_decision(AiModelDecision::Final(res)), AnalysisStep::Done(AiAnalysisResult { score: 70, .. })));
}
