use conllx::{Features, Token, TokenBuilder};
use std::collections::BTreeMap;

fn pairs(list: &[(&str, Option<&str>)]) -> Vec<(String, Option<String>)> {
    list.iter()
        .map(|(k, v)| (k.to_string(), v.map(|v| v.to_string())))
        .collect()
}

fn as_btree(features: &Features) -> BTreeMap<String, Option<String>> {
    features.as_map().iter().cloned().collect()
}

#[test]
fn from_iter_as_string() {
    let feature_map = pairs(&[
        ("feature2", Some("y")),
        ("feature3", None),
        ("feature1", Some("x")),
    ]);

    let features = Features::from_iter(feature_map);

    assert_eq!(features.as_str(), "feature1:x|feature2:y|feature3");
}

#[test]
fn features_from_iter_as_string() {
    let feature_map = pairs(&[
        ("feature2", Some("y")),
        ("feature3", None),
        ("feature1", Some("x")),
    ]);

    let features = Features::from_iter(feature_map);

    assert_eq!(features.as_str(), "feature1:x|feature2:y|feature3");
}

#[test]
fn features_with_colons() {
    let f = "Some:feature:with|additional:colons|feature";
    let features = Features::from_string(f);
    let map = as_btree(&features);
    let some = map.get("Some").unwrap().as_ref().map(String::as_str);
    assert_eq!(some, Some("feature:with"));
    let additional = map.get("additional").unwrap().as_ref().map(String::as_str);
    assert_eq!(additional, Some("colons"));
    let feature = map.get("feature").unwrap().as_ref().map(String::as_str);
    assert_eq!(feature, None);
}

fn token_with_features() -> Vec<Token> {
    vec![
        TokenBuilder::new("Gilles")
            .lemma("Gilles")
            .cpos("N")
            .pos("NE")
            .features(Features::from_string(
                "case:nominative|number:singular|gender:masculine",
            ))
            .into(),
        TokenBuilder::new("Deleuze")
            .lemma("Deleuze")
            .cpos("N")
            .pos("NE")
            .features(Features::from_string("nominative|singular|masculine"))
            .into(),
    ]
}

fn features_correct() -> Vec<BTreeMap<String, Option<String>>> {
    let mut correct1 = BTreeMap::new();
    correct1.insert("case".to_owned(), Some("nominative".to_owned()));
    correct1.insert("number".to_owned(), Some("singular".to_owned()));
    correct1.insert("gender".to_owned(), Some("masculine".to_owned()));

    let mut correct2 = BTreeMap::new();
    correct2.insert("nominative".to_owned(), None);
    correct2.insert("singular".to_owned(), None);
    correct2.insert("masculine".to_owned(), None);

    vec![correct1, correct2]
}

#[test]
fn features() {
    let tokens = token_with_features();
    let features = features_correct();

    for (token, correct) in tokens.iter().zip(features) {
        let kv = as_btree(token.features().as_ref().unwrap());
        assert_eq!(correct, kv);
    }
}

#[test]
fn eq_features_is_order_insensitive() {
    let token1: Token = TokenBuilder::new("a")
        .features(Features::from_string("a|b:c"))
        .into();
    let token2 = TokenBuilder::new("a")
        .features(Features::from_string("b:c|a"))
        .into();
    let token3: Token = TokenBuilder::new("a")
        .features(Features::from_string("b|a:c"))
        .into();

    assert_eq!(token1, token2);
    assert_ne!(token1, token3);
    assert_ne!(token2, token3);
}

#[test]
fn features_equal_by_their_maps() {
    assert!(Features::from_string("a|b:c") == Features::from_string("b:c|a"));
    assert!(Features::from_string("a|b:c") != Features::from_string("b|a:c"));
}

#[test]
fn map_is_in_the_order_of_the_keys() {
    let features = Features::from_string("b:2|a:1|c");
    let keys: Vec<&str> = features.as_map().iter().map(|(k, _)| k.as_str()).collect();
    assert_eq!(keys, vec!["a", "b", "c"]);
    let features = Features::from_string("a|b|c");
    assert_eq!(
        features.as_map(),
        &pairs(&[("a", None), ("b", None), ("c", None)])
    );
}

#[test]
fn later_pair_replaces_an_earlier_one() {
    let features = Features::from_string("a:1|b|a:2");
    assert_eq!(
        features.as_map(),
        &pairs(&[("a", Some("2")), ("b", None)])
    );
    assert_eq!(features.as_str(), "a:1|b|a:2");
}

#[test]
fn from_iter_gives_the_map_back() {
    let map = pairs(&[("case", Some("nom")), ("gender", None), ("number", Some("sg"))]);
    let features = Features::from_iter(map.clone());
    assert_eq!(features.as_map(), &map);
    assert_eq!(features.as_str(), "case:nom|gender|number:sg");
}

#[test]
fn empty_text_has_one_empty_key() {
    let features = Features::from_string("");
    assert_eq!(features.as_map(), &pairs(&[("", None)]));
    let features = Features::from_iter(Vec::new());
    assert_eq!(features.as_str(), "");
    assert!(features.as_map().is_empty());
}

#[test]
fn clone_reads_the_text_again() {
    let features = Features::from_iter(pairs(&[("a|b", None)]));
    assert_eq!(features.as_map(), &pairs(&[("a|b", None)]));
    let copy = features.clone();
    assert_eq!(copy.as_str(), "a|b");
    assert_eq!(copy.as_map(), &pairs(&[("a", None), ("b", None)]));
}

#[test]
fn into_inner_gives_text_and_map() {
    let (text, map) = Features::from_string("b:c|a").into_inner();
    assert_eq!(text, "b:c|a");
    assert_eq!(map, pairs(&[("a", None), ("b", Some("c"))]));
    assert_eq!(Features::from_string("x").into_inner_string(), "x");
    assert_eq!(
        Features::from_string("x").into_inner_map(),
        pairs(&[("x", None)])
    );
}

#[test]
fn token_setters_return_what_was_there() {
    let mut token = Token::new("a");
    assert_eq!(token.set_form("b"), "a");
    assert_eq!(token.form(), "b");
    assert_eq!(token.set_lemma(Some("l")), None);
    assert_eq!(token.set_lemma(None), Some("l".to_string()));
    assert_eq!(token.lemma(), None);
    assert_eq!(token.set_head(Some(3)), None);
    assert_eq!(token.set_head(Some(4)), Some(3));
    assert_eq!(token.head(), Some(4));
    assert_eq!(token.set_p_head_rel(Some("")), None);
    assert_eq!(token.p_head_rel(), Some(""));
    assert_ne!(token, Token::new("b"));
}
