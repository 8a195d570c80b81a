use asn1_aper::compiler::{
    Asn1Compiler, Asn1Definition, Asn1Module, ChoiceVariant, ParsedDef, ResolveFault, ResolvedDef,
};
use asn1_aper::parse::{Asn1TypeInteger, NamedValue};

fn cv(s: &str) -> Vec<char> {
    s.chars().collect()
}

fn module(name: &str, definitions: Vec<Asn1Definition>, imports: Vec<(&str, &str)>) -> Asn1Module {
    Asn1Module {
        name: cv(name),
        definitions,
        imports: imports.into_iter().map(|(d, m)| (cv(d), cv(m))).collect(),
    }
}

fn integer_def(name: &str, nvs: Option<Vec<(&str, NamedValue)>>, c: Option<(i64, i64, bool)>) -> Asn1Definition {
    Asn1Definition {
        name: cv(name),
        parsed: ParsedDef::Integer {
            ty: Asn1TypeInteger {
                named_values: nvs.map(|l| l.into_iter().map(|(n, v)| (cv(n), v)).collect()),
            },
            constraint: c,
        },
        resolved: false,
    }
}

#[test]
fn add_module_reports_new_and_replacement() {
    let mut compiler = Asn1Compiler::new();
    assert!(compiler.add_module(module("M", vec![], vec![])));
    // Registering the same name again silently replaces the module.
    assert!(!compiler.add_module(module("M", vec![], vec![])));
    assert!(compiler.add_module(module("N", vec![], vec![])));
    assert_eq!(compiler.registered_modules().len(), 2);
}

#[test]
fn resolve_imports_accepts_registered_sources() {
    let mut compiler = Asn1Compiler::new();
    compiler.add_module(module("A", vec![], vec![("X", "B")]));
    compiler.add_module(module("B", vec![], vec![]));
    assert!(compiler.resolve_imports().is_ok());
}

#[test]
fn resolve_imports_reports_missing_module() {
    let mut compiler = Asn1Compiler::new();
    compiler.add_module(module("A", vec![], vec![("X", "B")]));
    let e = compiler.resolve_imports().unwrap_err();
    assert_eq!(e.module, cv("B"));
    assert_eq!(e.import, cv("X"));
}

#[test]
fn resolve_integer_with_reference() {
    let mut compiler = Asn1Compiler::new();
    compiler.add_module(module(
        "M",
        vec![integer_def(
            "T",
            Some(vec![
                ("a", NamedValue::Literal(1)),
                ("b", NamedValue::Reference(cv("a"))),
            ]),
            Some((0, 10, false)),
        )],
        vec![],
    ));
    compiler.resolve_definitions().unwrap();
    let table = compiler.resolved_table();
    assert_eq!(table.len(), 1);
    assert_eq!(table[0].0, cv("T"));
    assert_eq!(
        table[0].1,
        ResolvedDef::Integer {
            lb: 0,
            ub: 10,
            ext: false,
            named_values: vec![(cv("a"), 1), (cv("b"), 1)],
        }
    );
    // The module's copy is flipped to resolved.
    assert!(compiler.registered_modules()[0].definitions[0].resolved);
}

#[test]
fn resolve_unresolvable_reference_fails() {
    let mut compiler = Asn1Compiler::new();
    compiler.add_module(module(
        "M",
        vec![integer_def(
            "T",
            Some(vec![("b", NamedValue::Reference(cv("missing")))]),
            Some((0, 10, false)),
        )],
        vec![],
    ));
    let e = compiler.resolve_definitions().unwrap_err();
    assert_eq!(
        e.faults,
        vec![ResolveFault::UnresolvedReference(cv("missing"))]
    );
}

#[test]
fn resolve_missing_bounds_fails() {
    let mut compiler = Asn1Compiler::new();
    compiler.add_module(module("M", vec![integer_def("T", None, None)], vec![]));
    let e = compiler.resolve_definitions().unwrap_err();
    assert_eq!(e.faults, vec![ResolveFault::MissingBounds]);
}

#[test]
fn resolve_choice_missing_keys_accumulates_every_offender() {
    let mut compiler = Asn1Compiler::new();
    let choice = Asn1Definition {
        name: cv("C"),
        parsed: ParsedDef::Choice {
            variants: vec![
                ChoiceVariant {
                    name: cv("first"),
                    key: None,
                    extended: false,
                    payload: cv("T1"),
                },
                ChoiceVariant {
                    name: cv("second"),
                    key: Some(1),
                    extended: false,
                    payload: cv("T2"),
                },
                ChoiceVariant {
                    name: cv("third"),
                    key: None,
                    extended: false,
                    payload: cv("T3"),
                },
            ],
            constraint: Some((0, 2, false)),
        },
        resolved: false,
    };
    compiler.add_module(module("M", vec![choice], vec![]));
    let e = compiler.resolve_definitions().unwrap_err();
    assert_eq!(
        e.faults,
        vec![
            ResolveFault::MissingKey(cv("first")),
            ResolveFault::MissingKey(cv("third")),
        ]
    );
}

#[test]
fn resolve_choice_keeps_declaration_order() {
    let mut compiler = Asn1Compiler::new();
    let choice = Asn1Definition {
        name: cv("C"),
        parsed: ParsedDef::Choice {
            variants: vec![
                ChoiceVariant {
                    name: cv("hi"),
                    key: Some(7),
                    extended: false,
                    payload: cv("T1"),
                },
                ChoiceVariant {
                    name: cv("lo"),
                    key: Some(2),
                    extended: true,
                    payload: cv("T2"),
                },
            ],
            constraint: Some((0, 7, true)),
        },
        resolved: false,
    };
    compiler.add_module(module("M", vec![choice], vec![]));
    compiler.resolve_definitions().unwrap();
    let table = compiler.resolved_table();
    assert_eq!(
        table[0].1,
        ResolvedDef::Choice {
            lb: 0,
            ub: 7,
            ext: true,
            variants: vec![(7, cv("T1")), (2, cv("T2"))],
        }
    );
}

#[test]
fn resolve_bitstring_carries_bounds() {
    let mut compiler = Asn1Compiler::new();
    let bs = Asn1Definition {
        name: cv("B"),
        parsed: ParsedDef::BitString {
            constraint: Some((16, 16, true)),
        },
        resolved: false,
    };
    compiler.add_module(module("M", vec![bs], vec![]));
    compiler.resolve_definitions().unwrap();
    assert_eq!(
        compiler.resolved_table()[0].1,
        ResolvedDef::BitString { lb: 16, ub: 16, ext: true }
    );
}

fn two_module_unit() -> Asn1Compiler {
    let mut compiler = Asn1Compiler::new();
    compiler.add_module(module(
        "First",
        vec![integer_def(
            "T",
            Some(vec![("a", NamedValue::Literal(3))]),
            Some((0, 100, false)),
        )],
        vec![],
    ));
    compiler.add_module(module(
        "Second",
        vec![
            Asn1Definition {
                name: cv("B"),
                parsed: ParsedDef::BitString {
                    constraint: Some((0, 7, false)),
                },
                resolved: false,
            },
            integer_def("U", None, Some((-5, 5, true))),
        ],
        vec![("T", "First")],
    ));
    compiler
}

#[test]
fn resolution_is_deterministic_across_instances() {
    // Two independent compiler instances over the same set of modules
    // resolve to identical descriptor tables.
    let mut one = two_module_unit();
    let mut two = two_module_unit();
    assert!(one.resolve_imports().is_ok());
    assert!(two.resolve_imports().is_ok());
    one.resolve_definitions().unwrap();
    two.resolve_definitions().unwrap();
    assert_eq!(one.resolved_table(), two.resolved_table());
    assert_eq!(one.resolved_table().len(), 3);
}
