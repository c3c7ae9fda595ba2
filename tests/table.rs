use better_simp::{
    build_table, classify, correct_mappings, count_outputs, derive_mappings, emit, is_radical,
    to_text, Conflict, Mapping, Problem, Review, Rule,
};

fn m(trad: char, simp: char) -> Mapping {
    Mapping { trad, simp }
}

fn review(trad: char, simp: char, fix: Option<char>) -> Review {
    Review {
        mapping: m(trad, simp),
        fix,
        precise: String::new(),
        problem: Problem::Sound,
        tags: Vec::new(),
        comment: String::new(),
    }
}

fn rule(premise: Mapping, output: Vec<Mapping>) -> Rule {
    Rule { premise, output }
}

#[test]
fn radical_premise_fires_but_is_not_emitted() {
    let primary = vec![review('言', '讠', None)];
    let secondary = vec![review('訁', '讠', None)];
    let rules = vec![rule(m('訁', '讠'), vec![m('計', '计')])];
    let out = build_table(primary, secondary, &rules).unwrap();
    assert!(out.table.contains(&m('計', '计')));
    assert!(!out.table.iter().any(|x| x.trad == '訁'));
    assert!(out.table.contains(&m('言', '讠')));
}

#[test]
fn higher_score_wins_conflict() {
    let secondary = vec![review('甲', '乙', None), review('丙', '丁', None)];
    let rules = vec![
        rule(m('甲', '乙'), vec![m('某', '甲')]),
        rule(m('丙', '丁'), vec![m('某', '乙')]),
        rule(m('丙', '丁'), vec![m('某', '甲')]),
    ];
    let out = build_table(Vec::new(), secondary, &rules).unwrap();
    assert!(out.table.contains(&m('某', '甲')));
    assert!(!out.table.contains(&m('某', '乙')));
    assert_eq!(out.table.iter().filter(|x| x.trad == '某').count(), 1);
}

#[test]
fn rejected_rule_votes_against_a_candidate() {
    // 某→甲 is proposed once by an accepted rule and listed once by a rejected one;
    // 某→乙 is proposed once by an accepted rule only.
    let secondary = vec![review('子', '孑', None)];
    let rules = vec![
        rule(m('子', '孑'), vec![m('某', '甲')]),
        rule(m('丑', '丒'), vec![m('某', '甲')]),
        rule(m('子', '孑'), vec![m('某', '乙')]),
    ];
    let out = build_table(Vec::new(), secondary, &rules).unwrap();
    assert!(out.table.contains(&m('某', '乙')));
    assert!(!out.table.contains(&m('某', '甲')));
}

#[test]
fn ties_go_to_the_first_proposal() {
    let secondary = vec![review('子', '孑', None)];
    let rules = vec![
        rule(m('子', '孑'), vec![m('某', '乙')]),
        rule(m('子', '孑'), vec![m('某', '甲')]),
    ];
    let out = build_table(Vec::new(), secondary, &rules).unwrap();
    assert!(out.table.contains(&m('某', '乙')));
    assert!(!out.table.contains(&m('某', '甲')));
}

#[test]
fn explicit_mapping_is_chained_through_analogy() {
    let primary = vec![review('甲', '乙', None)];
    let secondary = vec![review('子', '孑', None)];
    let rules = vec![rule(m('子', '孑'), vec![m('乙', '丙')])];
    let out = build_table(primary, secondary, &rules).unwrap();
    assert!(out.table.contains(&m('甲', '丙')));
    assert!(!out.table.contains(&m('甲', '乙')));
    assert!(out.table.contains(&m('乙', '丙')));
}

#[test]
fn chaining_follows_one_hop_only() {
    let primary = vec![review('甲', '乙', None)];
    let secondary = vec![review('子', '孑', None)];
    let rules = vec![rule(m('子', '孑'), vec![m('乙', '丙'), m('丙', '丁')])];
    let out = build_table(primary, secondary, &rules).unwrap();
    assert!(out.table.contains(&m('甲', '丙')));
    assert!(!out.table.contains(&m('甲', '丁')));
}

#[test]
fn duplicate_explicit_mappings_conflict() {
    let primary = vec![review('甲', '乙', None), review('甲', '丙', None)];
    let out = build_table(primary, Vec::new(), &Vec::new()).unwrap();
    assert_eq!(out.table, vec![m('甲', '乙')]);
    assert_eq!(out.conflicts, vec![Conflict { trad: '甲', kept: '乙', dropped: '丙' }]);
}

#[test]
fn identity_pin_suppresses_analogy_entry() {
    // 甲→甲 keeps the analogy 甲→丁 out of the analogy part; the explicit
    // mapping itself is chained to 甲→丁.
    let primary = vec![review('甲', '甲', None)];
    let secondary = vec![review('子', '孑', None)];
    let rules = vec![rule(m('子', '孑'), vec![m('甲', '丁')])];
    let c = classify(primary, secondary);
    let out = derive_mappings(c.char_reviews, c.ichar_reviews, c.radical_reviews, &rules);
    assert_eq!(out, vec![m('甲', '丁'), m('子', '孑')]);
}

#[test]
fn identity_pin_without_analogy_is_dropped() {
    let primary = vec![review('甲', '甲', None)];
    let out = build_table(primary, Vec::new(), &Vec::new()).unwrap();
    assert!(out.table.is_empty());
    assert!(out.conflicts.is_empty());
}

#[test]
fn pinned_character_is_not_overridden_by_analogy() {
    let primary = vec![review('甲', '乙', None)];
    let secondary = vec![review('子', '孑', None)];
    let rules = vec![rule(m('子', '孑'), vec![m('甲', '丁')])];
    let out = build_table(primary, secondary, &rules).unwrap();
    assert!(out.table.contains(&m('甲', '乙')));
    assert!(!out.table.contains(&m('甲', '丁')));
}

#[test]
fn rejected_rule_alone_has_no_effect() {
    let primary = vec![review('甲', '乙', None)];
    let rules = vec![rule(m('子', '孑'), vec![m('丙', '丁')])];
    let out = build_table(primary, Vec::new(), &rules).unwrap();
    assert_eq!(out.table, vec![m('甲', '乙')]);
}

#[test]
fn fix_overrides_default_simplification() {
    let reviews = vec![review('後', '后', Some('後')), review('發', '发', None)];
    assert_eq!(reviews[0].correct_mapping(), m('後', '後'));
    assert_eq!(correct_mappings(reviews), vec![m('後', '後'), m('發', '发')]);
}

#[test]
fn fix_supplies_a_premise() {
    let secondary = vec![review('乂', '丫', Some('亇'))];
    let rules = vec![
        rule(m('乂', '亇'), vec![m('甲', '乙')]),
        rule(m('乂', '丫'), vec![m('丙', '丁')]),
    ];
    let out = build_table(Vec::new(), secondary, &rules).unwrap();
    assert_eq!(out.table, vec![m('乂', '亇'), m('甲', '乙')]);
}

#[test]
fn radicals_are_sorted_out() {
    assert!(is_radical('訁'));
    assert!(is_radical('戠'));
    assert!(!is_radical('言'));
    let c = classify(
        vec![review('飠', '饣', None), review('甲', '乙', None)],
        vec![review('糹', '纟', None), review('丙', '丁', None)],
    );
    assert_eq!(c.char_reviews.len(), 1);
    assert_eq!(c.char_reviews[0].mapping, m('甲', '乙'));
    assert_eq!(c.ichar_reviews.len(), 1);
    assert_eq!(c.ichar_reviews[0].mapping, m('丙', '丁'));
    assert_eq!(c.radical_reviews.len(), 2);
    assert_eq!(c.radical_reviews[0].mapping, m('飠', '饣'));
    assert_eq!(c.radical_reviews[1].mapping, m('糹', '纟'));
}

#[test]
fn emit_keeps_first_and_reports_conflicts() {
    let (table, conflicts) = emit(&vec![
        m('甲', '乙'),
        m('丙', '丙'),
        m('甲', '乙'),
        m('甲', '丁'),
        m('丙', '戊'),
        m('己', '庚'),
    ]);
    assert_eq!(table, vec![m('甲', '乙'), m('己', '庚')]);
    assert_eq!(
        conflicts,
        vec![
            Conflict { trad: '甲', kept: '乙', dropped: '丁' },
            Conflict { trad: '丙', kept: '丙', dropped: '戊' },
        ]
    );
}

#[test]
fn table_has_no_shared_trad_and_no_identity() {
    let primary = vec![review('甲', '乙', None), review('甲', '丙', None), review('丁', '丁', None)];
    let secondary = vec![review('子', '孑', None), review('子', '孒', None)];
    let rules = vec![
        rule(m('子', '孑'), vec![m('戊', '己'), m('戊', '庚'), m('丁', '辛')]),
        rule(m('子', '孒'), vec![m('戊', '庚'), m('壬', '壬')]),
    ];
    let out = build_table(primary, secondary, &rules).unwrap();
    for (i, x) in out.table.iter().enumerate() {
        assert_ne!(x.trad, x.simp);
        for y in out.table.iter().skip(i + 1) {
            assert_ne!(x.trad, y.trad);
        }
    }
    assert!(out.table.contains(&m('戊', '庚')));
}

#[test]
fn text_has_one_line_per_mapping() {
    assert_eq!(to_text(&vec![m('計', '计'), m('甲', '乙')]), "計\t计\n甲\t乙\n");
    assert_eq!(to_text(&Vec::new()), "");
}

#[test]
fn outputs_are_counted() {
    let rules = vec![rule(m('甲', '乙'), vec![m('丙', '丁'), m('戊', '己')]), rule(m('甲', '乙'), vec![m('庚', '辛')])];
    assert_eq!(count_outputs(&rules), Some(3));
    assert_eq!(count_outputs(&Vec::new()), Some(0));
}
