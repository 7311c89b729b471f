use trait_mux::analyze::{analyze, EnumVariant as AnalyzedEnumVariant, Model, Trait};
use trait_mux::ast::Ast;
use trait_mux::lower::{
    conversion_names, enum_variant_to_constraint, function_for_trait, generate_autoref_specializers,
    generate_enum, generate_enum_impl, generate_trait_aggregates, lower, Constraint,
};

fn path(segments: &[&str]) -> Vec<String> {
    segments.iter().map(|s| s.to_string()).collect()
}

fn create_test_model() -> Model {
    let debug_trait = Trait { ident: "Debug".to_string(), path: path(&["std", "fmt", "Debug"]) };
    let display_trait = Trait { ident: "Display".to_string(), path: path(&["fmt", "Display"]) };
    let pointer_trait = Trait { ident: "Pointer".to_string(), path: path(&["Pointer"]) };

    let no_trait_variant =
        AnalyzedEnumVariant { ident: "NoTraits".to_string(), implemented_traits: vec![] };
    let debug_variant =
        AnalyzedEnumVariant { ident: "DebugOnly".to_string(), implemented_traits: vec![0] };
    let debug_display_variant =
        AnalyzedEnumVariant { ident: "DebugAndDisplay".to_string(), implemented_traits: vec![0, 1] };
    let all_traits_variant =
        AnalyzedEnumVariant { ident: "AllTraits".to_string(), implemented_traits: vec![0, 1, 2] };

    Model {
        enum_ident: "TestEnum".to_string(),
        wrap_ident: "test_wrap".to_string(),
        traits: vec![debug_trait, display_trait, pointer_trait],
        enum_variants: vec![debug_variant, debug_display_variant, all_traits_variant, no_trait_variant],
    }
}

#[test]
fn lower_test_generate_trait_aggregates() {
    let model = create_test_model();

    let aggregates = generate_trait_aggregates(&model);

    assert_eq!(aggregates.len(), 2);

    let debug_display_aggregate =
        aggregates.iter().find(|a| a.name.to_string() == "DebugAndDisplay").unwrap();
    assert_eq!(debug_display_aggregate.traits.len(), 2);
    assert_eq!(debug_display_aggregate.traits[0].ident.to_string(), "Debug");
    assert_eq!(debug_display_aggregate.traits[1].ident.to_string(), "Display");

    let all_traits_aggregate = aggregates.iter().find(|a| a.name.to_string() == "AllTraits").unwrap();
    assert_eq!(all_traits_aggregate.traits.len(), 3);
}

#[test]
fn lower_test_generate_enum() {
    let model = create_test_model();

    let enum_ir = generate_enum(&model);

    assert_eq!(enum_ir.name.to_string(), "TestEnum");
    assert_eq!(enum_ir.variants.len(), 4);

    let debug_variant = enum_ir.variants.iter().find(|v| v.ident.to_string() == "DebugOnly").unwrap();
    match &debug_variant.constraint {
        Constraint::Path(path) => {
            let path_str = path.join("::");
            assert!(path_str.contains("Debug"));
        }
        _ => panic!("Expected Path constraint for DebugOnly variant"),
    }

    let no_trait_variant = enum_ir.variants.iter().find(|v| v.ident.to_string() == "NoTraits").unwrap();
    match &no_trait_variant.constraint {
        Constraint::Unbounded => {}
        _ => panic!("Expected None constraint for NoTraits variant"),
    }

    let multi_trait_variant =
        enum_ir.variants.iter().find(|v| v.ident.to_string() == "DebugAndDisplay").unwrap();
    match &multi_trait_variant.constraint {
        Constraint::Ident(ident) => {
            assert_eq!(ident.to_string(), "DebugAndDisplay");
        }
        _ => panic!("Expected Ident constraint for DebugAndDisplay variant"),
    }
}

#[test]
fn lower_test_generate_enum_impl() {
    let model = create_test_model();

    let enum_impl = generate_enum_impl(&model);

    assert_eq!(enum_impl.functions.len(), 3);

    let debug_fn = enum_impl.functions.iter().find(|f| f.name == "try_as_debug").unwrap();
    assert_eq!(debug_fn.matching_variants.len(), 3);

    let display_fn = enum_impl.functions.iter().find(|f| f.name == "try_as_display").unwrap();
    assert_eq!(display_fn.matching_variants.len(), 2);

    let serialize_fn = enum_impl.functions.iter().find(|f| f.name == "try_as_pointer").unwrap();
    assert_eq!(serialize_fn.matching_variants.len(), 1);
}

#[test]
fn lower_test_generate_autoref_specializers() {
    let model = create_test_model();

    let specializers = generate_autoref_specializers(&model);

    assert_eq!(specializers.len(), 4);

    let debug_only_specializer =
        specializers.iter().find(|s| s.variant.to_string() == "DebugOnly").unwrap();
    assert_eq!(debug_only_specializer.deref_count, 1);
    assert_eq!(debug_only_specializer.tag.to_string(), "DebugOnlyTag");
    assert_eq!(debug_only_specializer.match_ident.to_string(), "DebugOnlyMatch");

    let all_traits_specializer =
        specializers.iter().find(|s| s.variant.to_string() == "AllTraits").unwrap();
    assert_eq!(all_traits_specializer.deref_count, 3);
}

#[test]
fn test_lower() {
    let model = create_test_model();

    let ir = lower(&model);

    assert_eq!(ir.trait_aggregates.len(), 2);
    assert_eq!(ir.enum_def.variants.len(), 4);
    assert_eq!(ir.enum_impl.functions.len(), 3);
    assert_eq!(ir.autoref_specializers.len(), 4);

    assert_eq!(ir.wrap_ident.to_string(), "test_wrap");
    assert_eq!(ir.wrap_derefs, 4);
    assert_eq!(ir.into.to_string(), "into_test_enum");
    assert_eq!(ir.into_tag.to_string(), "into_test_enum_tag");
}

#[test]
fn accessor_lists_matching_variants_in_order() {
    let model = create_test_model();
    let f = function_for_trait(&model, 1, &"display".to_string());
    assert_eq!(f.name, "try_as_display");
    assert_eq!(f.result_path, path(&["fmt", "Display"]));
    assert_eq!(f.matching_variants, vec!["DebugAndDisplay".to_string(), "AllTraits".to_string()]);
}

#[test]
fn accessor_names_use_snake_case() {
    let ast = Ast {
        name: "MyType".to_string(),
        paths: vec![path(&["std", "fmt", "UpperHex"]), path(&["PartialEq"])],
    };
    let model = analyze(&ast).unwrap();
    let ir = lower(&model);
    let names: Vec<&str> = ir.enum_impl.functions.iter().map(|f| f.name.as_str()).collect();
    assert_eq!(names, vec!["try_as_partial_eq", "try_as_upper_hex"]);
    assert_eq!(ir.into, "into_my_type");
    assert_eq!(ir.into_tag, "into_my_type_tag");
}

#[test]
fn conversion_names_wrap_the_snake_name() {
    let (into, into_tag) = conversion_names(&"abc_def".to_string());
    assert_eq!(into, "into_abc_def");
    assert_eq!(into_tag, "into_abc_def_tag");
}

#[test]
fn constraints_follow_member_count() {
    let model = create_test_model();
    assert!(matches!(enum_variant_to_constraint(&model, &model.enum_variants[3]), Constraint::Unbounded));
    match enum_variant_to_constraint(&model, &model.enum_variants[0]) {
        Constraint::Path(p) => assert_eq!(p, path(&["std", "fmt", "Debug"])),
        _ => panic!("expected a path"),
    }
    match enum_variant_to_constraint(&model, &model.enum_variants[2]) {
        Constraint::Ident(i) => assert_eq!(i, "AllTraits"),
        _ => panic!("expected an aggregate"),
    }
}
