use c2safe::derive::{attach_derives, initial_derives, remove_wrong_derives};
use c2safe::diffing::{difference, render_diff, Side};
use c2safe::item::{FnInfo, ItemSort, ParsedItem, TypeInfo, TypeSort};
use c2safe::names::{function_name, nominal_name, rename_in, Replacement, Span};
use c2safe::result::{Rendering, TranslationResult};
use c2safe::schedule::{closure, Scheduler};
use c2safe::signature::{
    after_declaration_reply, after_full_reply, balanced_angles, fewest_errors, mark_signature_only, needs_signature_stub,
    ranking_step, select_signatures, GlobalReply,
};
use std::cmp::Ordering;
use c2safe::strset::TextSet;
use c2safe::translator::{Config, FunctionDecl, Kind, Program, Ref, TranslateError, Translator, TypeDecl, VariableDecl};

fn sp(a: usize) -> Span {
    Span { start: a, end: a + 1 }
}

fn config() -> Config {
    Config { try_multiple_signatures: true, provide_signatures: true, fix_errors: true }
}

fn type_item(name: &str, sort: TypeSort, code: &str) -> ParsedItem {
    ParsedItem {
        name: name.to_string(),
        sort: ItemSort::Type(TypeInfo { sort, derives: TextSet::new() }),
        code: code.to_string(),
        simple_code: code.to_string(),
        checking_code: code.to_string(),
    }
}

fn term_item(name: &str, sort: ItemSort, code: &str, simple: &str) -> ParsedItem {
    ParsedItem {
        name: name.to_string(),
        sort,
        code: code.to_string(),
        simple_code: simple.to_string(),
        checking_code: simple.to_string(),
    }
}

fn derives(r: &TranslationResult) -> Vec<String> {
    match &r.items[0].sort {
        ItemSort::Type(t) => t.derives.items.clone(),
        _ => panic!("not a type"),
    }
}

fn empty_program() -> Program {
    Program { types: vec![], variables: vec![], functions: vec![] }
}

#[test]
fn empty_program_emits_only_entry_point() {
    let mut t = Translator::new(empty_program(), config(), vec![]);
    for k in [Kind::Type, Kind::Variable, Kind::Function] {
        assert!(t.ready(k).is_empty());
        assert!(t.finished(k));
        assert!(!t.in_flight(k));
    }
    assert_eq!(t.code(), "fn main() {}");
    assert_eq!(t.errors(), 0);
}

#[test]
fn reserved_names_get_prefixes() {
    assert_eq!(nominal_name("Option".to_string()), "MyOption");
    assert_eq!(nominal_name("Point".to_string()), "Point");
    assert_eq!(function_name("main".to_string()), "my_main");
    assert_eq!(function_name("sum".to_string()), "sum");
}

#[test]
fn names_are_settled_per_kind() {
    let p = Program {
        types: vec![TypeDecl { name: "option".to_string(), sort: TypeSort::Struct, deps: vec![], struct_alias: false, ident: sp(0) }],
        variables: vec![],
        functions: vec![FunctionDecl { name: "main".to_string(), type_deps: vec![], deps: vec![], callees: vec![], params: 0, ident: sp(5) }],
    };
    let mut t = Translator::new(p, config(), vec![]);
    assert_eq!(t.translate_names(vec!["Option".to_string()], vec![], vec!["main".to_string()]), Ok(()));
    assert_eq!(t.new_type_names, vec!["MyOption".to_string()]);
    assert_eq!(t.new_function_names, vec!["my_main".to_string()]);
    assert_eq!(t.translate_names(vec![], vec![], vec![]), Err(TranslateError::NameCount));
}

#[test]
fn typedef_gets_no_derives() {
    let mut r = TranslationResult::of_items(vec![type_item("MyInt", TypeSort::Typedef, "type MyInt = i32;")], false);
    attach_derives(&mut r);
    assert!(derives(&r).is_empty());
    assert_eq!(r.code(), "type MyInt = i32;");
}

#[test]
fn struct_gets_all_nine_derives() {
    let mut r = TranslationResult::of_items(vec![type_item("P", TypeSort::Struct, "struct P { x: i32, y: i32 }")], false);
    attach_derives(&mut r);
    let mut expected: Vec<String> =
        ["Clone", "Copy", "Debug", "Default", "PartialOrd", "Ord", "PartialEq", "Eq", "Hash"].iter().map(|s| s.to_string()).collect();
    expected.sort();
    assert_eq!(derives(&r), expected);
    assert_eq!(remove_wrong_derives(&mut r, &vec![]), Ok(true));
    assert_eq!(derives(&r).len(), 9);
}

#[test]
fn union_derives_can_all_be_rejected() {
    let mut r = TranslationResult::of_items(vec![type_item("U", TypeSort::Union, "union U { i: i32, f: f32 }")], false);
    attach_derives(&mut r);
    assert_eq!(derives(&r), vec!["Clone".to_string(), "Copy".to_string()]);
    assert_eq!(r.code(), "#[derive(Clone, Copy)]\nunion U { i: i32, f: f32 }");
    let rejected = vec![("U".to_string(), vec!["Clone".to_string(), "Copy".to_string()])];
    assert_eq!(remove_wrong_derives(&mut r, &rejected), Ok(false));
    assert!(derives(&r).is_empty());
    assert_eq!(r.code(), "union U { i: i32, f: f32 }");
    assert_eq!(remove_wrong_derives(&mut r, &vec![]), Ok(true));
}

#[test]
fn derive_rejection_for_unknown_item_is_an_error() {
    let mut r = TranslationResult::of_items(vec![type_item("U", TypeSort::Union, "union U {}")], false);
    attach_derives(&mut r);
    let rejected = vec![("V".to_string(), vec!["Copy".to_string()])];
    assert_eq!(remove_wrong_derives(&mut r, &rejected), Err(TranslateError::UnknownItem));
    assert_eq!(derives(&r).len(), 2);
}

#[test]
fn initial_derive_sets_by_kind() {
    assert_eq!(initial_derives(TypeSort::Typedef).len(), 0);
    assert_eq!(initial_derives(TypeSort::Union).len(), 2);
    assert_eq!(initial_derives(TypeSort::Struct).len(), 9);
}

fn globals_program() -> Program {
    Program {
        types: vec![],
        variables: vec![
            VariableDecl { name: "a".to_string(), type_deps: vec![], deps: vec![], ident: sp(4) },
            VariableDecl { name: "b".to_string(), type_deps: vec![], deps: vec![Ref { id: 0, span: sp(20) }], ident: sp(16) },
        ],
        functions: vec![],
    }
}

#[test]
fn dependent_global_waits_for_its_dependency() {
    let mut t = Translator::new(globals_program(), config(), vec![]);
    t.translate_names(vec![], vec!["a".to_string(), "b".to_string()], vec![]).unwrap();
    assert_eq!(t.ready(Kind::Variable), vec![0]);
    assert!(t.ready(Kind::Variable).is_empty());
    let a = TranslationResult::of_items(vec![term_item("a", ItemSort::Variable, "static a: i32 = 1;", "static a: i32;")], false);
    assert_eq!(t.commit(Kind::Variable, 0, a), Ok(()));
    let b_deps = t.program.variables[1].deps.clone();
    let prefix = t.make_translation_prefix(&vec![], &b_deps, &vec![], true);
    assert_eq!(prefix, vec!["static a: i32;".to_string()]);
    assert_eq!(t.ready(Kind::Variable), vec![1]);
    let b = TranslationResult::of_items(vec![term_item("b", ItemSort::Variable, "static b: i32 = a + 1;", "static b: i32;")], false);
    assert_eq!(t.commit(Kind::Variable, 1, b), Ok(()));
    assert!(t.finished(Kind::Variable));
    assert_eq!(t.code(), "static a: i32 = 1;\nstatic b: i32 = a + 1;\nfn main() {}");
}

#[test]
fn a_node_is_committed_once() {
    let mut t = Translator::new(globals_program(), config(), vec![]);
    let a = TranslationResult::of_items(vec![], false);
    assert_eq!(t.commit(Kind::Variable, 0, a.clone()), Err(TranslateError::NotInFlight));
    t.ready(Kind::Variable);
    assert_eq!(t.commit(Kind::Variable, 0, a.clone()), Ok(()));
    assert_eq!(t.commit(Kind::Variable, 0, a), Err(TranslateError::NotInFlight));
    assert_eq!(t.inner.translated_variables.len(), 1);
}

#[test]
fn global_then_function_with_shared_uses() {
    let p = Program {
        types: vec![],
        variables: vec![VariableDecl { name: "g".to_string(), type_deps: vec![], deps: vec![], ident: sp(4) }],
        functions: vec![FunctionDecl {
            name: "f".to_string(),
            type_deps: vec![],
            deps: vec![Ref { id: 0, span: sp(30) }],
            callees: vec![],
            params: 0,
            ident: sp(16),
        }],
    };
    let mut t = Translator::new(p, config(), vec!["use std::io;".to_string()]);
    assert_eq!(t.ready(Kind::Variable), vec![0]);
    let mut g = TranslationResult::of_items(vec![term_item("g", ItemSort::Variable, "static g: i32 = 5;", "static g: i32;")], false);
    g.uses.insert(" use std::io; ".to_string());
    t.commit(Kind::Variable, 0, g).unwrap();
    assert_eq!(t.ready(Kind::Function), vec![0]);
    let f_deps = t.program.functions[0].deps.clone();
    assert_eq!(t.make_translation_prefix(&vec![], &f_deps, &vec![], true), vec!["static g: i32;".to_string()]);
    let sig = FnInfo { signature: "fn f() -> i32".to_string(), shape: "()->i32".to_string(), params: 0 };
    let f = TranslationResult::of_items(
        vec![term_item("f", ItemSort::Function(sig), "fn f() -> i32 { g }", "fn f() -> i32 { unimplemented!() }")],
        false,
    );
    t.commit(Kind::Function, 0, f).unwrap();
    assert_eq!(t.inner.uses.items, vec!["use std::io;".to_string()]);
    assert_eq!(t.code(), "use std::io;\nstatic g: i32 = 5;\nfn f() -> i32 { g }\nfn main() {}");
    assert_eq!(t.checking_code(), "use std::io;\nstatic g: i32 = 5;\nfn f() -> i32 { unimplemented!() }\nfn main() {}");
}

#[test]
fn typedef_alias_is_copied_and_emits_nothing() {
    let p = Program {
        types: vec![
            TypeDecl { name: "s".to_string(), sort: TypeSort::Struct, deps: vec![], struct_alias: false, ident: sp(7) },
            TypeDecl { name: "s_t".to_string(), sort: TypeSort::Typedef, deps: vec![Ref { id: 0, span: sp(30) }], struct_alias: true, ident: sp(40) },
        ],
        variables: vec![],
        functions: vec![],
    };
    let mut t = Translator::new(p, config(), vec![]);
    assert_eq!(t.ready(Kind::Type), vec![0]);
    assert!(t.copy_alias(1).is_none());
    let s = TranslationResult::of_items(vec![type_item("S", TypeSort::Struct, "struct S {}")], false);
    t.commit(Kind::Type, 0, s).unwrap();
    assert_eq!(t.ready(Kind::Type), vec![1]);
    let c = t.copy_alias(1).unwrap();
    assert!(c.copied);
    assert_eq!(c.code(), "struct S {}");
    t.commit(Kind::Type, 1, c).unwrap();
    assert_eq!(t.code(), "struct S {}\nfn main() {}");
    assert!(t.copy_alias(0).is_none());
}

#[test]
fn items_already_translated_are_dropped() {
    let mut t = Translator::new(globals_program(), config(), vec![]);
    t.ready(Kind::Variable);
    let a = TranslationResult::of_items(vec![term_item("a", ItemSort::Variable, "static a: i32 = 1;", "static a: i32;")], false);
    t.commit(Kind::Variable, 0, a).unwrap();
    let items = vec![
        term_item("a", ItemSort::Variable, "static a: i32 = 1;", "static a: i32;"),
        term_item("b", ItemSort::Variable, "static b: i32 = 2;", "static b: i32;"),
        type_item("a", TypeSort::Struct, "struct a;"),
    ];
    let kept = t.dedup_and_check(items.clone(), "b").unwrap();
    assert_eq!(kept.iter().map(|i| i.name.clone()).collect::<Vec<_>>(), vec!["b".to_string(), "a".to_string()]);
    assert_eq!(t.dedup_and_check(items, "c").unwrap_err(), TranslateError::MissingItem);
}

#[test]
fn use_items_are_lifted_and_probed() {
    let items = vec![
        term_item("u", ItemSort::Use, "  use std::mem;\n", ""),
        term_item("x", ItemSort::Variable, "static x: i32 = 0;", "static x: i32;"),
        term_item("v", ItemSort::Use, "use nope::Nope;", ""),
    ];
    let (rest, lines) = Translator::take_uses(items);
    assert_eq!(rest.len(), 1);
    assert_eq!(rest[0].name, "x");
    assert_eq!(lines, vec!["use std::mem;".to_string(), "use nope::Nope;".to_string()]);
    let ok = Translator::accepted_uses(lines, &vec![true, false]);
    assert_eq!(ok.items, vec!["use std::mem;".to_string()]);
}

#[test]
fn substitutions_follow_settled_names() {
    let mut t = Translator::new(globals_program(), config(), vec![]);
    t.translate_names(vec![], vec!["alpha".to_string(), "beta".to_string()], vec![]).unwrap();
    let reps = t.make_replace_vec(&vec![], &vec![Ref { id: 0, span: sp(20) }, Ref { id: 9, span: sp(25) }], &vec![]);
    assert_eq!(reps.len(), 1);
    assert_eq!(reps[0].span, sp(20));
    assert_eq!(reps[0].text, "alpha");
}

#[test]
fn in_parameter_is_renamed_everywhere() {
    let mut subs: Vec<Replacement> = vec![Replacement { span: sp(4), text: "sum".to_string() }];
    rename_in(&mut subs, &vec![sp(12), sp(33)]);
    assert_eq!(subs.len(), 3);
    assert_eq!(subs[1].span, sp(12));
    assert_eq!(subs[1].text, "in_data");
    assert_eq!(subs[2].span, sp(33));
    assert_eq!(subs[2].text, "in_data");
}

#[test]
fn signatures_prefer_faithful_arity() {
    let sigs = vec![
        FnInfo { signature: "fn sum(in_data: i32, n: i32) -> i32".to_string(), shape: "(i32,i32)->i32".to_string(), params: 2 },
        FnInfo { signature: "fn sum(a: i32, b: i32) -> i32".to_string(), shape: "(i32,i32)->i32".to_string(), params: 2 },
        FnInfo { signature: "fn sum(v: &[i32], n: i32, m: i32) -> i32".to_string(), shape: "(&[i32],i32,i32)->i32".to_string(), params: 3 },
    ];
    let kept = select_signatures(sigs, 2);
    assert_eq!(kept.len(), 1);
    assert_eq!(kept[0].signature, "fn sum(in_data: i32, n: i32) -> i32");
    let only_wide = vec![FnInfo { signature: "fn f(a: i32)".to_string(), shape: "(i32)".to_string(), params: 1 }];
    assert_eq!(select_signatures(only_wide, 0).len(), 1);
}

#[test]
fn angle_brackets_must_balance() {
    assert!(balanced_angles("fn f(v: Vec<i32>) -> Option<i32>"));
    assert!(!balanced_angles("fn f(v: Vec<i32) -> i32"));
    assert!(balanced_angles("fn f()"));
}

#[test]
fn candidates_with_fewest_errors_remain() {
    let mut a = TranslationResult::of_items(vec![], false);
    a.errors = 2;
    let mut b = TranslationResult::of_items(vec![], false);
    b.errors = 0;
    let mut c = TranslationResult::of_items(vec![], false);
    c.errors = 0;
    c.copied = true;
    let kept = fewest_errors(vec![a, b, c]);
    assert_eq!(kept.len(), 2);
    assert!(kept.iter().all(|k| k.errors == 0));
    assert!(fewest_errors(vec![]).is_empty());
    let marked = mark_signature_only(kept);
    assert!(marked.iter().all(|k| k.signature_only));
}

#[test]
fn errors_and_signature_only_are_collected() {
    let mut t = Translator::new(globals_program(), config(), vec![]);
    t.ready(Kind::Variable);
    let mut a = TranslationResult::of_items(vec![], true);
    a.errors = 3;
    t.commit(Kind::Variable, 0, a).unwrap();
    t.ready(Kind::Variable);
    let mut b = TranslationResult::of_items(vec![], false);
    b.errors = 4;
    t.commit(Kind::Variable, 1, b).unwrap();
    assert_eq!(t.errors(), 7);
    assert_eq!(t.signature_only(), vec!["a".to_string()]);
}

#[test]
fn cycle_leaves_nothing_ready() {
    let mut s = Scheduler::new(vec![vec![1], vec![0]]);
    assert!(s.ready().is_empty());
    assert!(!s.in_flight());
    assert!(!s.finished());
    let mut selfref = Scheduler::new(vec![vec![0]]);
    assert_eq!(selfref.ready(), vec![0]);
}

#[test]
fn closure_reaches_transitive_types() {
    let deps = vec![vec![1], vec![2], vec![], vec![0]];
    assert_eq!(closure(&deps, vec![true, false, false, false]), vec![true, true, true, false]);
    assert_eq!(closure(&deps, vec![false, false, false, false]), vec![false; 4]);
}

#[test]
fn result_renderings_differ_by_kind() {
    let r = TranslationResult::of_items(
        vec![term_item("x", ItemSort::Variable, "static x: i32 = 1;", "static x: i32;")],
        false,
    );
    assert_eq!(r.mk_code(Rendering::Simple), "static x: i32;");
    assert_eq!(r.checking_code(), "static x: i32 = 1;");
    let mut e = r.clone();
    e.errors = 1;
    assert_eq!(e.checking_code(), "static x: i32;");
}

#[test]
fn difference_marks_each_line() {
    assert_eq!(difference("a\nb", "a\nc"), " a\n-b\n+c");
    assert_eq!(difference("same", "same"), " same");
    let d = vec![(Side::Left, "x".to_string()), (Side::Right, "y".to_string())];
    assert_eq!(render_diff(&d), "-x\n+y");
}

#[test]
fn substitutions_are_rendered_in_place() {
    let src = "int sum(int in, int n){ return in + n; }";
    let subs = vec![
        Replacement { span: Span { start: 4, end: 7 }, text: "sum".to_string() },
        Replacement { span: Span { start: 31, end: 33 }, text: "in_data".to_string() },
        Replacement { span: Span { start: 12, end: 14 }, text: "in_data".to_string() },
    ];
    assert_eq!(
        c2safe::names::render_with(src, &subs),
        Some("int sum(int in_data, int n){ return in_data + n; }".to_string())
    );
    assert_eq!(c2safe::names::render_with("abc", &vec![]), Some("abc".to_string()));
}

#[test]
fn overlapping_or_empty_substitutions_are_refused() {
    let overlap = vec![
        Replacement { span: Span { start: 0, end: 2 }, text: "x".to_string() },
        Replacement { span: Span { start: 1, end: 3 }, text: "y".to_string() },
    ];
    assert_eq!(c2safe::names::render_with("abcd", &overlap), None);
    let empty = vec![Replacement { span: Span { start: 1, end: 1 }, text: "x".to_string() }];
    assert_eq!(c2safe::names::render_with("abcd", &empty), None);
    let past = vec![Replacement { span: Span { start: 2, end: 9 }, text: "x".to_string() }];
    assert_eq!(c2safe::names::render_with("abcd", &past), None);
}

#[test]
fn configuration_shapes_function_prompts() {
    let one = Config { try_multiple_signatures: false, provide_signatures: false, fix_errors: true };
    assert_eq!(one.signature_requests(), 1);
    assert_eq!(config().signature_requests(), 3);
    let p = Program {
        types: vec![],
        variables: vec![VariableDecl { name: "g".to_string(), type_deps: vec![], deps: vec![], ident: sp(4) }],
        functions: vec![FunctionDecl {
            name: "f".to_string(),
            type_deps: vec![],
            deps: vec![Ref { id: 0, span: sp(30) }],
            callees: vec![],
            params: 0,
            ident: sp(16),
        }],
    };
    for (cfg, expected) in [(config(), 1usize), (one, 0usize)] {
        let mut t = Translator::new(p.clone(), cfg, vec![]);
        t.ready(Kind::Variable);
        let g = TranslationResult::of_items(vec![term_item("g", ItemSort::Variable, "static g: i32 = 5;", "static g: i32;")], false);
        t.commit(Kind::Variable, 0, g).unwrap();
        assert_eq!(t.function_context(0).len(), expected);
    }
}

#[test]
fn ranking_and_fallback_steps() {
    let mut a = TranslationResult::of_items(vec![], false);
    a.errors = 1;
    let b = TranslationResult::of_items(vec![], false);
    assert_eq!(ranking_step(a.clone(), b.clone(), Ordering::Less).errors, 0);
    assert_eq!(ranking_step(a.clone(), b.clone(), Ordering::Greater).errors, 1);
    assert_eq!(ranking_step(a, b, Ordering::Equal).errors, 1);
    assert!(needs_signature_stub(&vec![]));
    assert!(matches!(after_full_reply(Some("x".to_string())), GlobalReply::Use { signature_only: false, .. }));
    assert!(matches!(after_full_reply(None), GlobalReply::AskWithoutInitializer));
    assert!(matches!(after_declaration_reply(Some("x".to_string())), Some(GlobalReply::Use { signature_only: true, .. })));
    assert!(after_declaration_reply(None).is_none());
}

fn named_globals() -> Program {
    Program {
        types: vec![],
        variables: vec![
            VariableDecl { name: "zeta".to_string(), type_deps: vec![], deps: vec![], ident: sp(0) },
            VariableDecl { name: "alpha".to_string(), type_deps: vec![], deps: vec![], ident: sp(0) },
        ],
        functions: vec![FunctionDecl {
            name: "f".to_string(),
            type_deps: vec![],
            deps: vec![Ref { id: 0, span: sp(3) }, Ref { id: 1, span: sp(5) }, Ref { id: 0, span: sp(9) }],
            callees: vec![],
            params: 0,
            ident: sp(1),
        }],
    }
}

#[test]
fn context_and_signature_only_follow_name_order() {
    let mut t = Translator::new(named_globals(), config(), vec![]);
    assert_eq!(t.ready(Kind::Variable), vec![0, 1]);
    let z = TranslationResult::of_items(vec![term_item("zeta", ItemSort::Variable, "static ZETA: i32 = 1;", "static ZETA: i32;")], true);
    let a = TranslationResult::of_items(vec![term_item("alpha", ItemSort::Variable, "static ALPHA: i32 = 2;", "static ALPHA: i32;")], true);
    t.commit(Kind::Variable, 0, z).unwrap();
    t.commit(Kind::Variable, 1, a).unwrap();
    assert_eq!(t.signature_only(), vec!["alpha".to_string(), "zeta".to_string()]);
    let deps = t.program.functions[0].deps.clone();
    assert_eq!(
        t.make_translation_prefix(&vec![], &deps, &vec![], true),
        vec!["static ALPHA: i32;".to_string(), "static ZETA: i32;".to_string()]
    );
}

#[test]
fn copied_alias_keeps_errors_and_imports() {
    let p = Program {
        types: vec![
            TypeDecl { name: "s".to_string(), sort: TypeSort::Struct, deps: vec![], struct_alias: false, ident: sp(7) },
            TypeDecl { name: "s_t".to_string(), sort: TypeSort::Typedef, deps: vec![Ref { id: 0, span: sp(30) }], struct_alias: true, ident: sp(40) },
        ],
        variables: vec![],
        functions: vec![],
    };
    let mut t = Translator::new(p, config(), vec![]);
    t.ready(Kind::Type);
    let mut s = TranslationResult::of_items(vec![type_item("S", TypeSort::Struct, "struct S {}")], false);
    s.errors = 2;
    s.uses.insert("use std::fmt;".to_string());
    t.commit(Kind::Type, 0, s).unwrap();
    let c = t.copy_alias(1).unwrap();
    assert!(c.copied);
    assert_eq!(c.errors, 2);
    assert_eq!(c.uses.items, vec!["use std::fmt;".to_string()]);
    assert!(!c.signature_only);
}
