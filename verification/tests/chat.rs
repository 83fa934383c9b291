use llmca::chat::{Context, Message};
use llmca::rule::{CognitiveRule, MessageModelRule};
use llmca::substrate::CognitiveSubstrateUnit;

#[test]
fn message_from_tagged_transcript_line() {
    let m = Message::from_string("<|im_start|>assistant\nhello there<|im_end|>".to_string());
    assert_eq!(m.role, "assistant");
    assert_eq!(m.content, "hello there");
}

#[test]
fn message_from_plain_line_keeps_role_and_content() {
    let m = Message::from_string("  user \n  some answer  ".to_string());
    assert_eq!(m.role, "user");
    assert_eq!(m.content, "some answer");
}

#[test]
fn message_without_newline_gets_unknown_role() {
    let m = Message::from_string("just some text<|im_end|>".to_string());
    assert_eq!(m.role, "unknown");
    assert_eq!(m.content, "just some text");
}

#[test]
fn message_strips_repeated_start_markers() {
    let m = Message::from_string("<|im_start|><|im_start|>system\nbody".to_string());
    assert_eq!(m.role, "system");
    assert_eq!(m.content, "body");
}

#[test]
fn context_compiles_transcript() {
    let mut ctx = Context::from_messages(vec![Message::new(
        "system".to_string(),
        "be brief".to_string(),
    )]);
    ctx.add_message(Message::new("user".to_string(), "hi".to_string()));
    let prompt = ctx.compile();
    assert_eq!(
        prompt,
        "<|im_start|>system\nbe brief\n<|im_end|>\n<|im_start|>user\nhi\n<|im_end|>\n"
    );
}

#[test]
fn context_appends_within_bound() {
    let mut ctx = Context::from_messages(vec![
        Message::new("system".to_string(), "s".to_string()),
        Message::new("user".to_string(), "u".to_string()),
    ]);
    // size bound is twice the seed length
    for i in 0..3 {
        ctx.add_message(Message::new("user".to_string(), format!("m{}", i)));
    }
    assert_eq!(ctx.messages.len(), 5);
    assert_eq!(ctx.messages[4].content, "m2");
}

#[test]
fn context_drains_middle_once_over_bound() {
    let seed: Vec<Message> = (0..2)
        .map(|i| Message::new("user".to_string(), format!("seed{}", i)))
        .collect();
    let mut ctx = Context::from_messages(seed);
    // size is 4; keep pushing until the history exceeds it
    for i in 0..4 {
        ctx.add_message(Message::new("user".to_string(), format!("m{}", i)));
    }
    assert_eq!(ctx.messages.len(), 6);
    // the next message overflows: the middle is drained and it is dropped
    ctx.add_message(Message::new("user".to_string(), "dropped".to_string()));
    assert_eq!(ctx.messages.len(), 4);
    assert_eq!(ctx.messages[0].content, "seed0");
    assert_eq!(ctx.messages[1].content, "seed1");
    assert_eq!(ctx.messages[2].content, "m2");
    assert_eq!(ctx.messages[3].content, "m3");
    assert!(ctx.messages.iter().all(|m| m.content != "dropped"));
}

#[test]
fn substrate_prompt_is_truncated_to_bound() {
    let unit = CognitiveSubstrateUnit::new("abcdefgh".to_string(), 5);
    assert_eq!(unit.get_prompt(), "abcde");
    let short = CognitiveSubstrateUnit::new("abc".to_string(), 5);
    assert_eq!(short.get_prompt(), "abc");
}

#[test]
fn substrate_update_truncates_new_prompt() {
    let mut unit = CognitiveSubstrateUnit::new(String::new(), 4);
    unit.update_prompt("longer than four".to_string());
    assert_eq!(unit.get_prompt(), "long");
    assert_eq!(unit.max_size, 4);
}

#[test]
fn rule_compiles_its_prompt() {
    let mut rule = MessageModelRule::new("prompt text".to_string(), vec!["rule".to_string()]);
    assert_eq!(rule.compile_prompt(), "prompt text");
    let features = rule.with_feature("state".to_string());
    assert_eq!(features, vec!["rule".to_string(), "state".to_string()]);
}

#[test]
fn default_rule_has_stock_prompt_and_features() {
    let rule = MessageModelRule::default();
    assert!(rule.compile_prompt().starts_with("You're a LLM Cognitive Unit"));
    let mut copy = rule;
    let features = copy.with_feature("extra".to_string());
    assert_eq!(
        features,
        vec![
            "rule".to_string(),
            "state".to_string(),
            "neighbors".to_string(),
            "extra".to_string()
        ]
    );
}
