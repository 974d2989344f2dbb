use tipping::record::{Ratio, TokenRecord};
use tipping::token_filter::StaticFilter;
use tipping::tokenizer::Tokenizer;

fn ratio(num: u64, den: u64) -> Ratio {
    Ratio { num, den }
}

#[test]
fn test_all() {
    let msg: Vec<String> = ["a x1 b", "a x2 b", "a x3 c", "a x4 c"]
        .iter()
        .map(|s| s.to_string())
        .collect();
    let tokenizer = Tokenizer::new(Vec::new(), Vec::new(), Vec::new());
    let filter = StaticFilter::with(true, true, true);
    let idep = TokenRecord::new(&msg, &tokenizer, &filter);

    assert_eq!(idep.occurence("a"), Some(4));
    assert_eq!(idep.occurence("b"), Some(2));
    assert_eq!(idep.occurence("c"), Some(2));
    assert_eq!(idep.occurence("x1"), Some(1));
    assert_eq!(idep.occurence("x2"), Some(1));
    assert_eq!(idep.occurence("x3"), Some(1));
    assert_eq!(idep.occurence("x4"), Some(1));

    assert_eq!(idep.coocurence("a", "x1"), Some(1));
    assert_eq!(idep.coocurence("a", "x2"), Some(1));
    assert_eq!(idep.coocurence("a", "x3"), Some(1));
    assert_eq!(idep.coocurence("a", "x4"), Some(1));
    assert_eq!(idep.coocurence("a", "b"), Some(2));
    assert_eq!(idep.coocurence("a", "c"), Some(2));
    assert_eq!(idep.coocurence("b", "x1"), Some(1));
    assert_eq!(idep.coocurence("b", "x2"), Some(1));
    assert_eq!(idep.coocurence("c", "x3"), Some(1));
    assert_eq!(idep.coocurence("c", "x4"), Some(1));
    assert_eq!(idep.coocurence("b", "c"), None);
    assert_eq!(idep.coocurence("x1", "x2"), None);

    assert_eq!(idep.dependency("a", "x1"), Some(ratio(1, 4)));
    assert_eq!(idep.dependency("a", "x2"), Some(ratio(1, 4)));
    assert_eq!(idep.dependency("a", "x3"), Some(ratio(1, 4)));
    assert_eq!(idep.dependency("a", "x4"), Some(ratio(1, 4)));

    assert_eq!(idep.dependency("x1", "a"), Some(ratio(1, 1)));
    assert_eq!(idep.dependency("x2", "a"), Some(ratio(1, 1)));
    assert_eq!(idep.dependency("x3", "a"), Some(ratio(1, 1)));
    assert_eq!(idep.dependency("x4", "a"), Some(ratio(1, 1)));

    assert_eq!(idep.dependency("b", "x1"), Some(ratio(1, 2)));
    assert_eq!(idep.dependency("b", "x2"), Some(ratio(1, 2)));

    assert_eq!(idep.dependency("x1", "b"), Some(ratio(1, 1)));
    assert_eq!(idep.dependency("x2", "b"), Some(ratio(1, 1)));

    assert_eq!(idep.dependency("c", "x3"), Some(ratio(1, 2)));
    assert_eq!(idep.dependency("c", "x4"), Some(ratio(1, 2)));

    assert_eq!(idep.dependency("x3", "c"), Some(ratio(1, 1)));
    assert_eq!(idep.dependency("x4", "c"), Some(ratio(1, 1)));

    assert_eq!(idep.dependency("a", "b"), Some(ratio(2, 4)));
    assert_eq!(idep.dependency("a", "c"), Some(ratio(2, 4)));

    assert_eq!(idep.dependency("b", "a"), Some(ratio(2, 2)));
    assert_eq!(idep.dependency("c", "a"), Some(ratio(2, 2)));

    assert!(idep.occurence("a").is_some());
    assert!(idep.occurence("b").is_some());
    assert!(idep.occurence("c").is_some());
    assert!(idep.occurence("x1").is_some());
    assert!(idep.occurence("x2").is_some());
    assert!(idep.occurence("x3").is_some());
    assert!(idep.occurence("x4").is_some());

    assert!(idep.occurence("z").is_none());
    assert!(idep.occurence("x5").is_none());
}

#[test]
fn dependency_bounds_and_self() {
    let msg: Vec<String> = ["a x1 b", "a x2 b", "a x3 c", "a x4 c"]
        .iter()
        .map(|s| s.to_string())
        .collect();
    let tokenizer = Tokenizer::new(Vec::new(), Vec::new(), Vec::new());
    let filter = StaticFilter::with(true, true, true);
    let idep = TokenRecord::new(&msg, &tokenizer, &filter);

    // The dependency of a text on itself is one whenever the text occurs.
    let self_dep = idep.dependency("a", "a").unwrap();
    assert_eq!(self_dep.num, self_dep.den);
    assert_eq!(self_dep, ratio(4, 4));
    assert!(idep.dependency("z", "z").is_none());

    // Every defined dependency lies in [0, 1].
    for eve in ["a", "b", "c", "x1", "x2", "x3", "x4"] {
        for con in ["a", "b", "c", "x1", "x2", "x3", "x4"] {
            if let Some(d) = idep.dependency(eve, con) {
                assert!(d.den > 0);
                assert!(d.num <= d.den);
            }
        }
    }

    // Whitespace never counts.
    assert!(idep.occurence(" ").is_none());
}
