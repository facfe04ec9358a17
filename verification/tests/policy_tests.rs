use chunk_relay::policy::{
    collect_results, decide_dispatch, extract_message, plan_chunks, ChunkOutcome, DispatchDecision,
};

fn chars(s: &str) -> Vec<char> {
    s.chars().collect()
}

fn text_of(v: &Vec<char>) -> String {
    v.iter().collect()
}

#[test]
fn threshold_document_travels_whole() {
    assert_eq!(decide_dispatch(1980), DispatchDecision::Single);
    assert_eq!(decide_dispatch(0), DispatchDecision::Single);
    let doc = chars(&"x".repeat(1980));
    let plan = plan_chunks(&doc);
    assert_eq!(plan.len(), 1);
    assert_eq!(text_of(&plan[0]), "x".repeat(1980));
}

#[test]
fn one_over_threshold_triggers_segmentation() {
    assert_eq!(decide_dispatch(1981), DispatchDecision::Split { count: 1 });
    let doc = chars(&"x".repeat(1981));
    let plan = plan_chunks(&doc);
    assert_eq!(plan.len(), 1);
    assert_eq!(text_of(&plan[0]), "x".repeat(1981));
}

#[test]
fn chunk_count_grows_with_length() {
    assert_eq!(decide_dispatch(3499), DispatchDecision::Split { count: 3 });
    assert_eq!(decide_dispatch(2999), DispatchDecision::Split { count: 2 });
}

#[test]
fn extract_message_reads_the_field() {
    assert_eq!(extract_message("{\"message\":\"hi\"}"), "hi");
    assert_eq!(extract_message("{\"status\":\"ok\",\"message\":\"result text\"}"), "result text");
}

#[test]
fn malformed_body_degrades_to_empty() {
    assert_eq!(extract_message("not json at all"), "");
    assert_eq!(extract_message("{\"other\":1}"), "");
    assert_eq!(extract_message("{\"message\":42}"), "");
}

#[test]
fn failures_are_skipped_in_order() {
    let outs = vec![
        ChunkOutcome::Success { body: "{\"message\":\"first\"}".to_string() },
        ChunkOutcome::Failure { status: 500 },
        ChunkOutcome::Success { body: "{\"message\":\"third\"}".to_string() },
    ];
    let record = collect_results(&outs);
    assert_eq!(record, vec!["first", "third"]);
}

#[test]
fn three_thousand_lines_make_three_chunks() {
    let mut lines: Vec<String> = Vec::new();
    for i in 0..3000 {
        if i % 6 == 0 {
            lines.push("x".to_string());
        } else {
            lines.push(String::new());
        }
    }
    let doc_text = lines.join("\n");
    assert_eq!(doc_text.chars().count(), 3499);
    let doc = chars(&doc_text);

    assert_eq!(decide_dispatch(doc.len()), DispatchDecision::Split { count: 3 });
    let plan = plan_chunks(&doc);
    assert_eq!(plan.len(), 3);
    for chunk in &plan {
        assert_eq!(text_of(chunk).split('\n').count(), 1000);
    }
    let rejoined: Vec<String> = plan.iter().map(text_of).collect();
    assert_eq!(rejoined.join("\n"), doc_text);

    let outs = vec![
        ChunkOutcome::Success { body: "{\"message\":\"r1\"}".to_string() },
        ChunkOutcome::Failure { status: 502 },
        ChunkOutcome::Success { body: "{\"message\":\"r3\"}".to_string() },
    ];
    let record = collect_results(&outs);
    assert_eq!(record, vec!["r1", "r3"]);
}
