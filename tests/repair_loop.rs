use c2safe::item::{ItemSort, ParsedItem};
use c2safe::repair::{select_fix, CompilerStep, Diagnostic, Edit, FixContext, RepairError, Suggestion, TypeCheckingResult};
use c2safe::strset::TextSet;
use c2safe::text::{count_lines, join_lines, strip_prefix, trim};

fn set(xs: &[&str]) -> TextSet {
    let mut s = TextSet::new();
    for x in xs {
        s.insert(x.to_string());
    }
    s
}

fn result(errors: &[(usize, &str)], uses: &[&str]) -> TypeCheckingResult {
    TypeCheckingResult {
        errors: errors.iter().map(|(l, m)| Diagnostic { line: *l, message: m.to_string() }).collect(),
        uses: uses.iter().map(|u| u.to_string()).collect(),
        suggestions: Vec::new(),
        passed: errors.is_empty(),
    }
}

fn item(name: &str, code: &str) -> ParsedItem {
    ParsedItem {
        name: name.to_string(),
        sort: ItemSort::Function(c2safe::item::FnInfo { signature: String::new(), shape: String::new(), params: 0 }),
        code: code.to_string(),
        simple_code: code.to_string(),
        checking_code: code.to_string(),
    }
}

#[test]
fn counts_lines_like_split() {
    assert_eq!(count_lines(""), 1);
    assert_eq!(count_lines("a"), 1);
    assert_eq!(count_lines("a\nb\n"), 3);
}

#[test]
fn joins_and_trims() {
    assert_eq!(join_lines(&vec!["a".to_string(), "b".to_string()]), "a\nb");
    assert_eq!(join_lines(&vec![]), "");
    assert_eq!(trim("  use a::b;\n"), "use a::b;");
    assert_eq!(trim("\t\u{3000}x y\u{a0}"), "x y");
    assert_eq!(strip_prefix("abc", "ab"), Some("c".to_string()));
    assert_eq!(strip_prefix("abc", "b"), None);
}

#[test]
fn text_set_is_sorted_and_deduplicated() {
    let mut s = TextSet::new();
    assert!(s.insert("b".to_string()));
    assert!(s.insert("a".to_string()));
    assert!(!s.insert("b".to_string()));
    assert_eq!(s.items, vec!["a".to_string(), "b".to_string()]);
    s.remove_all(&vec!["a".to_string()]);
    assert_eq!(s.items, vec!["b".to_string()]);
}

#[test]
fn whole_program_is_uses_prefix_and_code() {
    let c = FixContext::new(set(&["use a::B;", "use c::D;"]), "fn p() {}".to_string(), "fn q() {}".to_string(), set(&["q"]));
    assert_eq!(c.uses_str(), "use a::B;\nuse c::D;");
    assert_eq!(c.uses_and_prefix(), "use a::B;\nuse c::D;fn p() {}");
    assert_eq!(c.code(), "use a::B;\nuse c::D;fn p() {}\nfn q() {}");
    assert_eq!(c.prefix_lines(), 2);
}

#[test]
fn diagnostic_inside_prefix_is_refused() {
    let mut c = FixContext::new(set(&["use a::B;"]), "fn p() {}".to_string(), "fn q() {}".to_string(), set(&["q"]));
    assert_eq!(c.prefix_lines(), 1);
    let r = c.record(Some(result(&[(1, "bad prefix")], &[])));
    assert!(matches!(r, Err(RepairError::DiagnosticInPrefix { line: 1, .. })));
    assert!(c.result.is_none());
    assert!(c.record(Some(result(&[(2, "bad code")], &[]))).is_ok());
    assert_eq!(c.error_count(), Some(1));
}

#[test]
fn imports_merge_only_new_plain_paths() {
    let mut c = FixContext::new(set(&["use std::fmt::Write;"]), String::new(), "fn q() {}".to_string(), set(&["q"]));
    c.record(Some(result(&[(3, "e")], &["use std::io::Write;", "use std::collections::HashMap;", "use a::*;", "use b::{c, d};"])))
        .unwrap();
    assert!(c.add_uses());
    assert_eq!(c.uses.items, vec!["use std::collections::HashMap;".to_string(), "use std::fmt::Write;".to_string()]);
    assert!(c.result.is_none());
}

#[test]
fn imports_that_add_nothing_keep_the_result() {
    let mut c = FixContext::new(set(&["use std::fmt::Write;"]), String::new(), "fn q() {}".to_string(), set(&["q"]));
    c.record(Some(result(&[(3, "e")], &["use std::io::Write;"]))).unwrap();
    assert!(!c.add_uses());
    assert_eq!(c.error_count(), Some(1));
    assert!(c.result.as_ref().unwrap().uses.is_empty());
}

#[test]
fn clean_candidate_is_left_alone() {
    let mut c = FixContext::new(set(&[]), "fn p() {}".to_string(), "fn q() {}".to_string(), set(&["q"]));
    c.record(Some(result(&[], &[]))).unwrap();
    assert_eq!(c.fix_by_compiler().unwrap(), CompilerStep::Done);
    assert_eq!(c.code, "fn q() {}");
    assert_eq!(c.error_count(), Some(0));
    assert_eq!(c.pending_messages(&TextSet::new()).len(), 0);
}

#[test]
fn import_hints_ask_for_another_check() {
    let mut c = FixContext::new(set(&[]), String::new(), "fn q() {}".to_string(), set(&["q"]));
    c.record(Some(result(&[(2, "missing")], &["use std::rc::Rc;"]))).unwrap();
    assert_eq!(c.fix_by_compiler().unwrap(), CompilerStep::Check);
    assert_eq!(c.uses.items, vec!["use std::rc::Rc;".to_string()]);
}

#[test]
fn update_whole_keeps_what_follows_the_head() {
    let mut c = FixContext::new(set(&["use a::B;"]), "fn p() {}".to_string(), "old".to_string(), set(&["q"]));
    assert!(c.update_whole("use a::B;fn p() {}\nnew code").is_ok());
    assert_eq!(c.code, "new code");
    assert!(matches!(c.update_whole("something else"), Err(RepairError::PrefixChanged)));
    assert_eq!(c.code, "new code");
}

#[test]
fn pending_messages_skip_failed_ones() {
    let mut c = FixContext::new(set(&[]), String::new(), "fn q() {}".to_string(), set(&["q"]));
    c.record(Some(result(&[(2, "b"), (3, "a"), (4, "b")], &[]))).unwrap();
    assert_eq!(c.pending_messages(&TextSet::new()).items, vec!["a".to_string(), "b".to_string()]);
    assert_eq!(c.pending_messages(&set(&["a"])).items, vec!["b".to_string()]);
}

#[test]
fn model_fix_must_define_every_protected_name() {
    let c = FixContext::new(set(&[]), String::new(), "fn q() {}".to_string(), set(&["q"]));
    assert_eq!(c.accept_fix(vec![item("q", "fn q() { 1 }"), item("z", "fn z() {}")]), Some("fn q() { 1 }".to_string()));
    assert_eq!(c.accept_fix(vec![item("z", "fn z() {}")]), None);
    assert_eq!(c.accept_fix(vec![item("q", "fn q() {}")]), None);
}

#[test]
fn fix_with_fewest_errors_wins() {
    assert_eq!(select_fix(3, &vec![Some(2), None, Some(1), Some(1), Some(5)]), Some(2));
    assert_eq!(select_fix(3, &vec![Some(3), None]), None);
    assert_eq!(select_fix(0, &vec![]), None);
}

#[test]
fn llm_round_adopts_best_and_records_failures() {
    let mut c = FixContext::new(set(&[]), String::new(), "a".to_string(), set(&["q"]));
    c.record(Some(result(&[(2, "m1"), (3, "m2")], &[]))).unwrap();
    let mut better = FixContext::new(set(&[]), String::new(), "b".to_string(), set(&["q"]));
    better.record(Some(result(&[(2, "m2")], &[]))).unwrap();
    let msgs = set(&["m1", "m2"]);
    let mut failed = TextSet::new();
    assert!(c.finish_llm_round(&mut failed, &msgs, vec![Some(better), None]));
    assert_eq!(c.code, "b");
    assert_eq!(failed.items, vec!["m2".to_string()]);
    let mut failed = TextSet::new();
    assert!(!c.finish_llm_round(&mut failed, &set(&["m2"]), vec![None]));
    assert_eq!(c.code, "b");
    assert_eq!(failed.items, vec!["m2".to_string()]);
}

#[test]
fn suggestions_are_applied_to_the_code_under_repair() {
    let mut c = FixContext::new(set(&[]), "fn p() {}".to_string(), "fn q() { x }".to_string(), set(&["q"]));
    assert_eq!(c.code(), "fn p() {}\nfn q() { x }");
    let mut res = result(&[(2, "x unknown")], &[]);
    res.suggestions = vec![Suggestion { solutions: vec![vec![Edit { start: 19, end: 20, text: "y".to_string() }]] }];
    c.record(Some(res)).unwrap();
    assert_eq!(c.fix_by_compiler().unwrap(), CompilerStep::Check);
    assert_eq!(c.code, "fn q() { y }");
    assert!(c.result.is_none());
}

#[test]
fn suggestion_touching_the_prefix_is_refused() {
    let mut c = FixContext::new(set(&[]), "fn p() {}".to_string(), "fn q() {}".to_string(), set(&["q"]));
    let mut res = result(&[(2, "e")], &[]);
    res.suggestions = vec![Suggestion { solutions: vec![vec![Edit { start: 3, end: 4, text: "r".to_string() }]] }];
    c.record(Some(res)).unwrap();
    assert!(matches!(c.fix_by_compiler(), Err(RepairError::PrefixChanged)));
    assert_eq!(c.code, "fn q() {}");
    let mut bad = result(&[(2, "e")], &[]);
    bad.suggestions = vec![Suggestion { solutions: vec![vec![Edit { start: 5, end: 99, text: "r".to_string() }]] }];
    c.record(Some(bad)).unwrap();
    assert!(matches!(c.fix_by_compiler(), Err(RepairError::SuggestionFailed)));
}

#[test]
fn forked_context_keeps_prefix_names_and_imports() {
    let c = FixContext::new(set(&["use a::B;"]), "fn p() {}".to_string(), "old".to_string(), set(&["q"]));
    let f = c.fork("new".to_string());
    assert_eq!(f.code, "new");
    assert_eq!(f.prefix, "fn p() {}");
    assert_eq!(f.uses.items, vec!["use a::B;".to_string()]);
    assert_eq!(f.names.items, vec!["q".to_string()]);
    assert!(f.result.is_none());
}
