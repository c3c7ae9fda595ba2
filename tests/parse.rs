use better_simp::{parse_review, parse_rule, Mapping, ParseError, Problem};

fn row(cells: &[&str]) -> Vec<String> {
    cells.iter().map(|c| c.to_string()).collect()
}

#[test]
fn review_with_major_problem_takes_first_precise_char() {
    let r = parse_review(&row(&["後", "后", "後", "", "tag1  tag2 ", "保留"])).unwrap();
    assert_eq!(r.mapping, Mapping { trad: '後', simp: '后' });
    assert_eq!(r.problem, Problem::Major);
    assert_eq!(r.fix, Some('後'));
    assert_eq!(r.precise, "後");
    assert_eq!(r.tags, vec!["tag1".to_string(), "tag2".to_string()]);
    assert_eq!(r.comment, "保留。");
}

#[test]
fn review_compatible_char_wins_over_precise() {
    let r = parse_review(&row(&["髮", "发", "⿰髟犮！", "𩬊", "", "好！"])).unwrap();
    assert_eq!(r.problem, Problem::Neutral);
    assert_eq!(r.fix, Some('𩬊'));
    assert_eq!(r.precise, "⿰髟犮");
    assert_eq!(r.comment, "好！");
}

#[test]
fn review_with_doubt_has_no_fix() {
    let r = parse_review(&row(&["乾", "干", "乾？", "", "", ""])).unwrap();
    assert_eq!(r.problem, Problem::Minor);
    assert_eq!(r.fix, None);
    assert_eq!(r.precise, "乾");
    assert_eq!(r.comment, "");
    assert!(r.is_relevant());
}

#[test]
fn review_without_problem() {
    let r = parse_review(&row(&["語", "语", "", "", "", ""])).unwrap();
    assert_eq!(r.problem, Problem::Sound);
    assert_eq!(r.fix, None);
    assert!(r.tags.is_empty());
    assert!(!r.is_relevant());
}

#[test]
fn lone_marker_gives_no_fix() {
    let r = parse_review(&row(&["甲", "乙", "！", "", "", ""])).unwrap();
    assert_eq!(r.problem, Problem::Neutral);
    assert_eq!(r.fix, None);
    assert_eq!(r.precise, "");
}

#[test]
fn review_missing_chars_is_an_error() {
    assert_eq!(parse_review(&row(&["", "乙"])).unwrap_err(), ParseError::MissingTrad);
    assert_eq!(parse_review(&row(&["甲", ""])).unwrap_err(), ParseError::MissingSimp { trad: '甲' });
    assert_eq!(parse_review(&row(&[])).unwrap_err(), ParseError::MissingTrad);
}

#[test]
fn rule_outputs_pair_up_across_cells() {
    let r = parse_rule(&row(&["訁", "讠", "計计 訂", "订\n討讨"])).unwrap().unwrap();
    assert_eq!(r.premise, Mapping { trad: '訁', simp: '讠' });
    assert_eq!(
        r.output,
        vec![
            Mapping { trad: '計', simp: '计' },
            Mapping { trad: '訂', simp: '订' },
            Mapping { trad: '討', simp: '讨' },
        ]
    );
}

#[test]
fn rule_without_outputs_is_skipped() {
    assert!(parse_rule(&row(&["訁", "讠", " ", ""])).unwrap().is_none());
}

#[test]
fn rule_with_unpaired_output_is_an_error() {
    assert_eq!(
        parse_rule(&row(&["訁", "讠", "計计訂", ""])).unwrap_err(),
        ParseError::UnpairedOutput { premise: Mapping { trad: '訁', simp: '讠' }, trad: '訂' }
    );
    assert_eq!(parse_rule(&row(&["訁"])).unwrap_err(), ParseError::MissingSimp { trad: '訁' });
}

#[test]
fn leading_marker_is_never_a_fix() {
    let r = parse_review(&row(&["甲", "乙", "！乙", "", "", ""])).unwrap();
    assert_eq!(r.problem, Problem::Major);
    assert_eq!(r.fix, None);
    let r = parse_review(&row(&["甲", "乙", "？乙！", "", "", ""])).unwrap();
    assert_eq!(r.problem, Problem::Neutral);
    assert_eq!(r.fix, None);
    assert_eq!(r.precise, "？乙");
    let r = parse_review(&row(&["甲", "乙", "？乙", "丙", "", ""])).unwrap();
    assert_eq!(r.fix, Some('丙'));
}

#[test]
fn unicode_white_space_separates_outputs() {
    let r = parse_rule(&row(&["訁", "讠", "計\u{3000}计\u{a0}訂", "\u{2009}订"])).unwrap().unwrap();
    assert_eq!(
        r.output,
        vec![Mapping { trad: '計', simp: '计' }, Mapping { trad: '訂', simp: '订' }]
    );
}
