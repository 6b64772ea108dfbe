use wordninja::LanguageModel;
use wordninja::ModelError;

#[test]
fn simple() {
    let model = LanguageModel::new(&["derek", "anderson"]).unwrap();
    assert_eq!(model.split("derekanderson"), vec!["derek", "anderson"]);
    assert_eq!(model.split("DEREKANDERSON"), vec!["DEREK", "ANDERSON"]);
}

#[test]
fn with_underscores_etc() {
    let model = LanguageModel::new(&["derek", "anderson"]).unwrap();
    let cmp = vec!["derek", "anderson"];
    assert_eq!(model.split("derek anderson"), cmp);
    assert_eq!(model.split("derek-anderson"), cmp);
    assert_eq!(model.split("derek_anderson"), cmp);
    assert_eq!(model.split("derek/anderson"), cmp);
}

#[test]
fn digits() {
    let model = LanguageModel::new(&["win", "intel"]).unwrap();
    assert_eq!(model.split("win32intel"), vec!["win", "32", "intel"]);
}

#[test]
fn apostrophes() {
    let model = LanguageModel::new(&["that", "'s", "the", "sheriff", "badge"]).unwrap();
    assert_eq!(
        model.split("that'sthesheriff'sbadge"),
        vec!["that's", "the", "sheriff's", "badge"]
    );
}

#[test]
fn custom() {
    let model = LanguageModel::new_model("der\nek").unwrap();
    assert_eq!(model.split("derek"), vec!["der", "ek"]);
}

#[test]
fn empty_input_gives_no_tokens() {
    let model = LanguageModel::new(&["a"]).unwrap();
    assert_eq!(model.split(""), Vec::<String>::new());
}

#[test]
fn separators_only_give_no_tokens() {
    let model = LanguageModel::new(&["a"]).unwrap();
    assert_eq!(model.split(" -_/ ,."), Vec::<String>::new());
}

#[test]
fn empty_word_list_is_rejected() {
    assert_eq!(LanguageModel::new(&[]).unwrap_err(), ModelError::InvalidModel);
}

#[test]
fn blank_model_text_is_rejected() {
    assert_eq!(
        LanguageModel::new_model("\n\r\n\n").unwrap_err(),
        ModelError::InvalidModel
    );
}

#[test]
fn model_text_skips_blank_lines_and_cr() {
    let model = LanguageModel::new_model("der\r\n\nek\n").unwrap();
    assert_eq!(model.split("derek"), vec!["der", "ek"]);
}

#[test]
fn segmentation_is_deterministic() {
    let model = LanguageModel::new(&["that", "'s", "the", "sheriff", "badge"]).unwrap();
    let once = model.split("that'sthesheriff'sbadge");
    let twice = model.split("that'sthesheriff'sbadge");
    assert_eq!(once, twice);
}

#[test]
fn tokens_reconstruct_the_input() {
    // Out-of-vocabulary chunks still come out; the characters of each
    // part are preserved exactly, in order.
    let model = LanguageModel::new(&["ab"]).unwrap();
    let tokens = model.split("xq-ab7");
    assert_eq!(tokens, vec!["xq", "ab", "7"]);
    assert_eq!(tokens.concat(), "xqab7");
}

#[test]
fn lone_apostrophe_is_its_own_token() {
    let model = LanguageModel::new(&["a"]).unwrap();
    assert_eq!(model.split("'"), vec!["'"]);
}

#[test]
fn rank_order_decides_ties() {
    // With the whole word ranked first it is cheapest on its own ...
    let model = LanguageModel::new(&["abcd", "ab", "cd"]).unwrap();
    assert_eq!(model.split("abcd"), vec!["abcd"]);
    // ... but ranked last, two cheap words beat one expensive one:
    // ln(1 ln 3) + ln(2 ln 3) < ln(3 ln 3).
    let model = LanguageModel::new(&["ab", "cd", "abcd"]).unwrap();
    assert_eq!(model.split("abcd"), vec!["ab", "cd"]);
}

#[test]
fn later_duplicate_overwrites_earlier_rank() {
    // "ab" appears at ranks 0 and 3; the later, costlier entry wins, so
    // splitting "abcd" prefers the whole word at rank 2.
    let model = LanguageModel::new(&["ab", "cd", "abcd", "ab"]).unwrap();
    assert_eq!(model.split("abcd"), vec!["abcd"]);
}

#[test]
fn uppercase_keeps_boundaries_and_case() {
    let model = LanguageModel::new(&["win", "intel"]).unwrap();
    assert_eq!(model.split("WIN32INTEL"), vec!["WIN", "32", "INTEL"]);
}
