use std::collections::{HashMap, HashSet};

use tipping::parser::Parser;
use tipping::pattern::CompiledPattern;

fn corpus(lines: &[&str]) -> Vec<String> {
    lines.iter().map(|s| s.to_string()).collect()
}

#[test]
fn trivial_test() {
    let msgs = corpus(&[
        "a x1 x2 b",
        "a x2 b",
        "a x3 b",
        "a x4 b",
        "c x1 d",
        "c x2 d",
        "c x3 d",
        "c x4 d",
    ]);
    let (clus, temps, masks) = Parser::default().compute_templates().compute_masks().parse(&msgs);
    let s1 = clus[..4].iter().map(|item| item.unwrap()).collect::<HashSet<_>>();
    let s2 = clus[4..].iter().map(|item| item.unwrap()).collect::<HashSet<_>>();
    assert_eq!(s1.len(), 1);
    assert_eq!(s2.len(), 1);

    let exp_all_temps = ["a <*> b", "a <*> <*> b", "c <*> d"]
        .into_iter()
        .map(ToOwned::to_owned)
        .collect::<HashSet<String>>();
    let all_temps = temps.into_iter().flatten().collect::<HashSet<String>>();
    assert_eq!(all_temps, exp_all_temps);

    let exp_masks = [
        ("a x1 x2 b", "001101100"),
        ("a x2 b", "001100"),
        ("a x3 b", "001100"),
        ("a x4 b", "001100"),
        ("c x1 d", "001100"),
        ("c x2 d", "001100"),
        ("c x3 d", "001100"),
        ("c x4 d", "001100"),
    ]
    .into_iter()
    .map(|(k, v)| (k.to_owned(), v.to_owned()))
    .collect::<HashMap<String, String>>();
    let computed = msgs.iter().cloned().zip(masks.into_iter()).collect::<HashMap<_, _>>();
    assert_eq!(computed, exp_masks);
}

#[test]
fn empty_corpus_yields_empty_outputs() {
    let msgs: Vec<String> = Vec::new();
    let (clus, temps, masks) = Parser::default().compute_templates().compute_masks().parse(&msgs);
    assert!(clus.is_empty());
    assert!(temps.is_empty());
    assert!(masks.is_empty());
}

#[test]
fn threshold_monotonicity_on_cluster_count() {
    let msgs = corpus(&[
        "a x1 x2 b",
        "a x2 b",
        "a x3 b",
        "a x4 b",
        "c x1 d",
        "c x2 d",
        "c x3 d",
        "c x4 d",
    ]);
    let low = Parser::default().with_threshold(1, 10).parse(&msgs).0;
    let high = Parser::default().with_threshold(9, 10).parse(&msgs).0;
    let count = |clus: &Vec<Option<usize>>| {
        clus.iter().filter_map(|c| *c).collect::<HashSet<_>>().len()
    };
    assert!(count(&high) >= count(&low));
}

#[test]
fn parse_is_deterministic() {
    let msgs = corpus(&[
        "alpha 1 beta",
        "alpha 2 beta",
        "gamma x delta",
        "gamma y delta",
        "odd one out",
    ]);
    let mk = || {
        Parser::default()
            .with_threshold(1, 2)
            .with_symbols(vec!['.'])
            .compute_templates()
            .compute_masks()
    };
    let first = mk().parse(&msgs);
    let second = mk().parse(&msgs);
    assert_eq!(first.0, second.0);
    assert_eq!(first.1, second.1);
    assert_eq!(first.2, second.2);
}

#[test]
fn cluster_ids_are_dense_and_masks_cover_bytes() {
    let msgs = corpus(&["user admin logged in", "user guest logged in", "wholly unrelated 42"]);
    let (clus, _, masks) = Parser::default().compute_templates().compute_masks().parse(&msgs);
    assert_eq!(clus.len(), msgs.len());
    assert_eq!(masks.len(), msgs.len());
    let ids: HashSet<usize> = clus.iter().filter_map(|c| *c).collect();
    for id in &ids {
        assert!(*id < ids.len());
    }
    for (msg, mask) in msgs.iter().zip(masks.iter()) {
        assert_eq!(mask.len(), msg.len());
        assert!(mask.bytes().all(|b| b == b'0' || b == b'1'));
    }
}

#[test]
fn specials_drive_anchor_membership() {
    // Special-black spans are always parameterized; special-white spans never.
    let msgs = corpus(&["job started at 10.5 s", "job started at 99.1 s"]);
    let parser = Parser::default()
        .with_special_blacks(vec![CompiledPattern::new(r"\d+\.\d+").unwrap()])
        .compute_masks();
    let (clus, masks) = {
        let r = parser.parse(&msgs);
        (r.0, r.2)
    };
    assert_eq!(clus[0], clus[1]);
    assert!(clus[0].is_some());
    // The special-black span "10.5" is masked as parameter bytes.
    let mask = &masks[0];
    let start = msgs[0].find("10.5").unwrap();
    assert!(mask[start..start + 4].bytes().all(|b| b == b'1'));
    // The literal prefix stays unmasked.
    assert!(mask[..3].bytes().all(|b| b == b'0'));
}
