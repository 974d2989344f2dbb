use std::collections::HashSet;

use tipping::template::{parameter_masks, render_template, shared_slices, templates};
use tipping::tokenizer::Tokenizer;

fn punct_vec() -> Vec<char> {
    "!\"#$%&'()*+,-./:;<=>?@[\\]^_`{|}~".chars().collect()
}

#[test]
fn test_common_words() {
    let msgs: Vec<String> = [
        "The value is a",
        "The value is b",
        "The value is c",
        "The value is d",
    ]
    .iter()
    .map(|s| s.to_string())
    .collect();
    let tokenizer = Tokenizer::new(Vec::new(), Vec::new(), Vec::new());
    let expected: HashSet<String> =
        ["The", "value", "is", " "].iter().map(|s| s.to_string()).collect();
    let computed: HashSet<String> =
        shared_slices(&msgs, &tokenizer, true, false, false).into_iter().collect();
    assert_eq!(computed, expected);
}

#[test]
fn test_parameter_mask() {
    let msgs: Vec<String> = vec!["The value is (val_123) ->".to_string()];
    let tokenizer = Tokenizer::new(Vec::new(), Vec::new(), punct_vec());
    let common_slices: Vec<String> = ["The", "value", "is", "val", "-", ">", "(", ")", "_"]
        .iter()
        .map(|s| s.to_string())
        .collect();
    let pm = parameter_masks(&msgs, &tokenizer, &common_slices);
    for (k, v) in msgs.iter().zip(pm.iter()) {
        println!("{}", k);
        println!("{}", v);
    }
}

#[test]
fn mask_shape_holds_for_arbitrary_input() {
    let msgs: Vec<String> = vec![
        "plain ascii 123".to_string(),
        "".to_string(),
        "caf\u{e9} \u{3042}\u{3044} 12.5!".to_string(),
        "punct-only: ...".to_string(),
    ];
    let tokenizer = Tokenizer::new(Vec::new(), Vec::new(), punct_vec());
    let shared: Vec<String> = vec!["plain".to_string(), " ".to_string()];
    let pm = parameter_masks(&msgs, &tokenizer, &shared);
    assert_eq!(pm.len(), msgs.len());
    for (msg, mask) in msgs.iter().zip(pm.iter()) {
        assert_eq!(mask.len(), msg.len());
        assert!(mask.bytes().all(|b| b == b'0' || b == b'1'));
    }
}

#[test]
fn template_renders_message_when_all_slots_shared() {
    let msg = "alpha beta gamma";
    let tokenizer = Tokenizer::new(Vec::new(), Vec::new(), punct_vec());
    let shared: Vec<String> =
        ["alpha", "beta", "gamma", " "].iter().map(|s| s.to_string()).collect();
    let rendered = render_template(msg, &tokenizer, &shared);
    assert_eq!(rendered, msg);
}

#[test]
fn template_collapses_adjacent_parameters() {
    let msg = "a x1x2 b";
    let tokenizer = Tokenizer::new(Vec::new(), Vec::new(), punct_vec());
    let shared: Vec<String> = ["a", "b", " "].iter().map(|s| s.to_string()).collect();
    let rendered = render_template(msg, &tokenizer, &shared);
    assert_eq!(rendered, "a <*> b");

    let msgs: Vec<String> = vec![msg.to_string()];
    let temps = templates(&msgs, &tokenizer, &shared);
    assert_eq!(temps, vec!["a <*> b".to_string()]);
}

#[test]
fn shared_slices_of_empty_corpus_is_empty() {
    let msgs: Vec<String> = Vec::new();
    let tokenizer = Tokenizer::new(Vec::new(), Vec::new(), punct_vec());
    let shared = shared_slices(&msgs, &tokenizer, true, false, false);
    assert!(shared.is_empty());
}
