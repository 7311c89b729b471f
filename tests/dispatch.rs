use trait_mux::analyze::{analyze, select_variant, Model};
use trait_mux::ast::Ast;

fn model(caps: &[&str]) -> Model {
    let ast = Ast { name: "T".to_string(), paths: caps.iter().map(|c| vec![c.to_string()]).collect() };
    analyze(&ast).unwrap()
}

#[test]
fn selection_picks_the_exact_combination() {
    let m = model(&["Debug", "Display", "Clone"]);
    // Sorted capabilities: Clone, Debug, Display.
    let k = select_variant(&m, &vec![true, false, true]).unwrap();
    assert_eq!(m.enum_variants[k].ident, "TCloneDisplay");
    let k = select_variant(&m, &vec![true, true, true]).unwrap();
    assert_eq!(k, 0);
    assert_eq!(m.enum_variants[k].ident, "TCloneDebugDisplay");
    let k = select_variant(&m, &vec![false, false, false]).unwrap();
    assert_eq!(m.enum_variants[k].ident, "TNone");
    let k = select_variant(&m, &vec![false, true, false]).unwrap();
    assert_eq!(m.enum_variants[k].ident, "TDebug");
}

#[test]
fn selection_matches_the_satisfied_set_for_every_input() {
    let m = model(&["A", "B", "C", "D"]);
    for bits in 0..16usize {
        let satisfied: Vec<bool> = (0..4).map(|i| bits & (1 << i) != 0).collect();
        let k = select_variant(&m, &satisfied).unwrap();
        let expected: Vec<usize> = (0..4).filter(|&i| satisfied[i]).collect();
        assert_eq!(m.enum_variants[k].implemented_traits, expected);
    }
}

#[test]
fn selection_on_a_partial_model_can_fail() {
    let mut m = model(&["A"]);
    m.enum_variants.retain(|v| !v.implemented_traits.is_empty());
    assert_eq!(select_variant(&m, &vec![false]), None);
    assert_eq!(select_variant(&m, &vec![true]), Some(0));
}
