use trait_mux::analyze::{analyze, AnalyzeError, Model};
use trait_mux::ast::Ast;
use trait_mux::lower::{lower, Constraint, Ir};

fn ast(name: &str, caps: &[&str]) -> Ast {
    Ast { name: name.to_string(), paths: caps.iter().map(|c| vec![c.to_string()]).collect() }
}

fn run(name: &str, caps: &[&str]) -> (Model, Ir) {
    let model = analyze(&ast(name, caps)).unwrap();
    let ir = lower(&model);
    (model, ir)
}

fn idents(model: &Model) -> Vec<String> {
    model.enum_variants.iter().map(|v| v.ident.clone()).collect()
}

#[test]
fn no_capabilities() {
    let (model, ir) = run("T", &[]);
    assert_eq!(idents(&model), vec!["TNone"]);
    assert!(model.enum_variants[0].implemented_traits.is_empty());
    assert_eq!(ir.trait_aggregates.len(), 0);
    assert_eq!(ir.enum_impl.functions.len(), 0);
    assert_eq!(ir.wrap_derefs, 1);
}

#[test]
fn one_capability() {
    let (model, ir) = run("T", &["Debug"]);
    assert_eq!(idents(&model), vec!["TDebug", "TNone"]);
    let depths: Vec<usize> = ir.autoref_specializers.iter().map(|s| s.deref_count).collect();
    assert_eq!(depths, vec![1, 0]);
    assert_eq!(ir.enum_impl.functions.len(), 1);
    assert_eq!(ir.enum_impl.functions[0].matching_variants, vec!["TDebug".to_string()]);
    assert_eq!(ir.trait_aggregates.len(), 0);
}

#[test]
fn two_capabilities() {
    let (model, ir) = run("T", &["Debug", "Display"]);
    assert_eq!(idents(&model), vec!["TDebugDisplay", "TDebug", "TDisplay", "TNone"]);
    let depths: Vec<usize> = ir.autoref_specializers.iter().map(|s| s.deref_count).collect();
    assert_eq!(depths, vec![2, 1, 1, 0]);
    assert_eq!(ir.trait_aggregates.len(), 1);
    assert_eq!(ir.trait_aggregates[0].name, "TDebugDisplay");
    let agg: Vec<&str> = ir.trait_aggregates[0].traits.iter().map(|t| t.ident.as_str()).collect();
    assert_eq!(agg, vec!["Debug", "Display"]);
    assert_eq!(ir.enum_impl.functions[0].name, "try_as_debug");
    assert_eq!(ir.enum_impl.functions[0].matching_variants, vec!["TDebugDisplay", "TDebug"]);
    assert_eq!(ir.enum_impl.functions[1].name, "try_as_display");
    assert_eq!(ir.enum_impl.functions[1].matching_variants, vec!["TDebugDisplay", "TDisplay"]);
    match &ir.enum_def.variants[0].constraint {
        Constraint::Ident(i) => assert_eq!(i, "TDebugDisplay"),
        _ => panic!("expected an aggregate constraint"),
    }
    assert_eq!(ir.autoref_specializers[0].tag, "TDebugDisplayTag");
    assert_eq!(ir.autoref_specializers[0].match_ident, "TDebugDisplayMatch");
}

#[test]
fn malformed_reference_aborts() {
    let a = Ast { name: "T".to_string(), paths: vec![vec!["Debug".to_string()], vec![]] };
    assert_eq!(analyze(&a).err(), Some(AnalyzeError::MalformedReference { index: 1 }));
}

#[test]
fn three_capabilities() {
    let (model, _) = run("T", &["Clone", "Debug", "Display"]);
    let ids = idents(&model);
    assert_eq!(ids.len(), 8);
    assert_eq!(ids[0], "TCloneDebugDisplay");
    assert_eq!(&ids[1..4], &["TCloneDebug", "TCloneDisplay", "TDebugDisplay"]);
    assert_eq!(&ids[4..7], &["TClone", "TDebug", "TDisplay"]);
    assert_eq!(ids[7], "TNone");
}

#[test]
fn aggregate_count_is_power_minus_singletons_and_empty() {
    for n in 0..6usize {
        let caps: Vec<String> = (0..n).map(|i| format!("C{}", i)).collect();
        let refs: Vec<&str> = caps.iter().map(|s| s.as_str()).collect();
        let (model, ir) = run("T", &refs);
        assert_eq!(model.enum_variants.len(), 1 << n);
        let expected = if n == 0 { 0 } else { (1usize << n) - n - 1 };
        assert_eq!(ir.trait_aggregates.len(), expected);
        for (agg, v) in ir
            .trait_aggregates
            .iter()
            .zip(model.enum_variants.iter().filter(|v| v.implemented_traits.len() > 1))
        {
            assert_eq!(agg.name, v.ident);
        }
    }
}

#[test]
fn accessors_list_exactly_the_containing_variants() {
    let (model, ir) = run("T", &["A", "B", "C"]);
    for (t, f) in ir.enum_impl.functions.iter().enumerate() {
        let expected: Vec<String> = model
            .enum_variants
            .iter()
            .filter(|v| v.implemented_traits.contains(&t))
            .map(|v| v.ident.clone())
            .collect();
        assert_eq!(f.matching_variants, expected);
        assert_eq!(f.matching_variants[0], "TABC");
        let single = model.enum_variants.iter().find(|v| v.implemented_traits == vec![t]).unwrap();
        assert!(f.matching_variants.contains(&single.ident));
    }
}

#[test]
fn pipeline_twice_gives_the_same_output() {
    let (m1, ir1) = run("Multi", &["Debug", "Clone", "Display", "Binary"]);
    let (m2, ir2) = run("Multi", &["Debug", "Clone", "Display", "Binary"]);
    assert_eq!(idents(&m1), idents(&m2));
    let f = |ir: &Ir| -> Vec<(String, Vec<String>)> {
        ir.enum_impl.functions.iter().map(|f| (f.name.clone(), f.matching_variants.clone())).collect()
    };
    assert_eq!(f(&ir1), f(&ir2));
    let s = |ir: &Ir| -> Vec<(String, usize)> {
        ir.autoref_specializers.iter().map(|s| (s.tag.clone(), s.deref_count)).collect()
    };
    assert_eq!(s(&ir1), s(&ir2));
    assert_eq!(ir1.into, ir2.into);
}
