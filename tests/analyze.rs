use trait_mux::analyze::{analyze, extract_traits, generate_enum_variants, AnalyzeError};
use trait_mux::ast::Ast;

fn path(segments: &[&str]) -> Vec<String> {
    segments.iter().map(|s| s.to_string()).collect()
}

fn ast(name: &str, paths: &[&[&str]]) -> Ast {
    Ast { name: name.to_string(), paths: paths.iter().map(|p| path(p)).collect() }
}

#[test]
fn test_generate_enum_variants_empty() {
    let ast = ast("Test", &[]);

    let traits = extract_traits(&ast).unwrap();
    let variants = generate_enum_variants(&ast, &traits);

    assert_eq!(variants.len(), 1);

    assert_eq!(variants[0].ident.to_string(), "TestNone");
    assert!(variants[0].implemented_traits.is_empty());
}

#[test]
fn test_generate_enum_variants_single_trait() {
    let ast = ast("Test", &[&["Debug"]]);

    let traits = extract_traits(&ast).unwrap();
    let variants = generate_enum_variants(&ast, &traits);

    assert_eq!(variants.len(), 2);

    assert_eq!(variants[0].ident.to_string(), "TestDebug");
    assert_eq!(variants[0].implemented_traits.len(), 1);

    assert_eq!(variants[1].ident.to_string(), "TestNone");
    assert!(variants[1].implemented_traits.is_empty());
}

#[test]
fn test_generate_enum_variants_multiple_traits() {
    let ast = ast("Type", &[&["Debug"], &["Display"], &["Clone"]]);

    let traits = extract_traits(&ast).unwrap();
    let variants = generate_enum_variants(&ast, &traits);

    assert_eq!(variants.len(), 8);

    let two_trait_variants = &variants[1..4];
    let one_trait_variants = &variants[4..7];

    assert_eq!(variants[0].implemented_traits.len(), 3);
    assert_eq!(variants[0].ident.to_string(), "TypeCloneDebugDisplay");

    for v in two_trait_variants {
        assert_eq!(v.implemented_traits.len(), 2);
    }

    for v in one_trait_variants {
        assert_eq!(v.implemented_traits.len(), 1);
    }

    assert_eq!(variants[7].ident.to_string(), "TypeNone");
    assert!(variants[7].implemented_traits.is_empty());

    assert!(two_trait_variants[0].ident.to_string() <= two_trait_variants[1].ident.to_string());
    assert!(two_trait_variants[1].ident.to_string() <= two_trait_variants[2].ident.to_string());

    assert!(one_trait_variants[0].ident.to_string() <= one_trait_variants[1].ident.to_string());
    assert!(one_trait_variants[1].ident.to_string() <= one_trait_variants[2].ident.to_string());
}

#[test]
fn test_extract_traits_sorting() {
    let ast = ast("Test", &[&["Zzz"], &["Aaa"], &["Mmm"]]);

    let traits = extract_traits(&ast).unwrap();

    assert_eq!(traits.len(), 3);
    assert_eq!(traits[0].ident.to_string(), "Aaa");
    assert_eq!(traits[1].ident.to_string(), "Mmm");
    assert_eq!(traits[2].ident.to_string(), "Zzz");
}

#[test]
fn extract_keeps_full_paths_and_input_order_on_equal_names() {
    let ast = ast("T", &[&["b", "Debug"], &["Clone"], &["a", "Debug"]]);
    let traits = extract_traits(&ast).unwrap();
    assert_eq!(traits[0].ident, "Clone");
    assert_eq!(traits[0].path, path(&["Clone"]));
    assert_eq!(traits[1].ident, "Debug");
    assert_eq!(traits[1].path, path(&["b", "Debug"]));
    assert_eq!(traits[2].ident, "Debug");
    assert_eq!(traits[2].path, path(&["a", "Debug"]));
}

#[test]
fn malformed_reference_is_reported_at_its_position() {
    let ast = ast("T", &[&["Debug"], &[], &["Clone"], &[]]);
    assert_eq!(extract_traits(&ast).err(), Some(AnalyzeError::MalformedReference { index: 1 }));
    assert!(matches!(analyze(&ast), Err(AnalyzeError::MalformedReference { index: 1 })));
}

#[test]
fn analyze_names_the_wrapper_after_the_type() {
    let ast = ast("T", &[&["std", "fmt", "Debug"]]);
    let model = analyze(&ast).unwrap();
    assert_eq!(model.enum_ident, "T");
    assert_eq!(model.wrap_ident, "WrapT");
    assert_eq!(model.traits.len(), 1);
    assert_eq!(model.traits[0].path, path(&["std", "fmt", "Debug"]));
}

#[test]
fn variants_of_four_capabilities_are_the_power_set() {
    let ast = ast("X", &[&["D"], &["C"], &["B"], &["A"]]);
    let model = analyze(&ast).unwrap();
    let vs = &model.enum_variants;
    assert_eq!(vs.len(), 16);
    let mut seen: Vec<Vec<usize>> = vs.iter().map(|v| v.implemented_traits.clone()).collect();
    for v in vs {
        assert!(v.implemented_traits.windows(2).all(|w| w[0] < w[1]));
        assert!(v.implemented_traits.iter().all(|&i| i < 4));
    }
    seen.sort();
    seen.dedup();
    assert_eq!(seen.len(), 16);
    for i in 1..vs.len() {
        let (a, b) = (&vs[i - 1], &vs[i]);
        assert!(
            a.implemented_traits.len() > b.implemented_traits.len()
                || (a.implemented_traits.len() == b.implemented_traits.len() && a.ident < b.ident)
        );
    }
    assert_eq!(vs[0].ident, "XABCD");
    assert_eq!(vs[15].ident, "XNone");
}

#[test]
fn equal_names_of_equal_size_are_ordered_by_members() {
    // {A, BC} and {AB, C} share the name "ABC".
    let ast = ast("", &[&["A"], &["BC"], &["AB"], &["C"]]);
    let model = analyze(&ast).unwrap();
    let abc: Vec<&Vec<usize>> = model
        .enum_variants
        .iter()
        .filter(|v| v.ident == "ABC" && v.implemented_traits.len() == 2)
        .map(|v| &v.implemented_traits)
        .collect();
    // Sorted traits: A, AB, BC, C.
    assert_eq!(abc, vec![&vec![0, 2], &vec![1, 3]]);
}

#[test]
fn analyze_twice_gives_the_same_model() {
    let ast = ast("T", &[&["Display"], &["Debug"], &["Clone"]]);
    let a = analyze(&ast).unwrap();
    let b = analyze(&ast).unwrap();
    let names = |m: &trait_mux::analyze::Model| -> Vec<(String, Vec<usize>)> {
        m.enum_variants.iter().map(|v| (v.ident.clone(), v.implemented_traits.clone())).collect()
    };
    assert_eq!(names(&a), names(&b));
}
