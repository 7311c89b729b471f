//! The pipeline on names alone: the capabilities' display names, sorted, and
//! every combination of them as a list of names, most specific first.
use vstd::prelude::*;
use crate::ast::Ast;
use crate::analyze::{AnalyzeError, extract_traits, first_malformed, well_formed_paths, is_extraction, trait_views, trait_idents};
use crate::enumerate::{rank_combinations, is_ordering, members_of, views, pow2};

verus! {

/// The names of the combination `members`.
pub open spec fn names_at(names: Seq<Seq<char>>, members: Seq<usize>) -> Seq<Seq<char>> {
    members.map_values(|i: usize| names[i as int])
}

/// `r` lists every combination of `names`, each as the names of its members, most
/// specific first (more members first, then by concatenated name).
pub open spec fn lists_every_combination(names: Seq<Seq<char>>, r: Seq<Seq<Seq<char>>>) -> bool {
    exists|ms: Seq<Seq<usize>>|
        {
            &&& is_ordering(ms, names.len() as nat, Seq::empty(), names)
            &&& r.len() == ms.len()
            &&& forall|k: int| 0 <= k < r.len() ==> #[trigger] r[k] == names_at(names, ms[k])
        }
}

pub open spec fn deep_views(r: Seq<Vec<String>>) -> Seq<Seq<Seq<char>>> {
    r.map_values(|v: Vec<String>| v.deep_view())
}

/// Every combination of `trait_names`, as lists of names, most specific first.
pub fn generate_permutations(trait_names: &Vec<String>) -> (r: Vec<Vec<String>>)
    requires
        pow2(trait_names.len() as nat) <= usize::MAX,
    ensures
        r.len() == pow2(trait_names.len() as nat),
        lists_every_combination(views(trait_names@), deep_views(r@)),
{
    let ghost names = views(trait_names@);
    let prefix = String::new();
    let entries = rank_combinations(&prefix, trait_names);
    let ghost ms = members_of(entries@);
    let mut r: Vec<Vec<String>> = Vec::new();
    for k in 0..entries.len()
        invariant
            names == views(trait_names@),
            ms == members_of(entries@),
            is_ordering(ms, trait_names.len() as nat, prefix@, names),
            r.len() == k,
            forall|t: int| 0 <= t < k ==> (#[trigger] r[t]).deep_view() == names_at(names, ms[t]),
    {
        let members = &entries[k];
        assert(ms[k as int] == members.members@);
        assert(crate::enumerate::is_combination(ms[k as int], trait_names.len() as nat));
        let mut set: Vec<String> = Vec::new();
        for i in 0..members.members.len()
            invariant
                ms[k as int] == members.members@,
                crate::enumerate::is_combination(ms[k as int], trait_names.len() as nat),
                names == views(trait_names@),
                set.len() == i,
                forall|j: int| 0 <= j < i ==> (#[trigger] set[j])@ == names[members.members[j] as int],
        {
            let t = members.members[i];
            set.push(trait_names[t].clone());
        }
        assert(set.deep_view() =~= names_at(names, ms[k as int]));
        r.push(set);
    }
    assert(prefix@ == Seq::<char>::empty());
    assert(deep_views(r@).len() == ms.len());
    r
}

/// The display names of the references of `ast`, sorted; fails on the first
/// reference without a segment.
pub fn extract_trait_names(ast: &Ast) -> (r: Result<Vec<String>, AnalyzeError>)
    ensures
        match r {
            Ok(names) => well_formed_paths(ast@.paths) && names.len() == ast.paths.len() && exists|ts: Seq<crate::analyze::TraitView>|
                is_extraction(ast@.paths, ts) && views(names@) == trait_idents(ts),
            Err(AnalyzeError::MalformedReference { index }) => first_malformed(ast@.paths, index as int),
        },
{
    let traits = match extract_traits(ast) {
        Ok(traits) => traits,
        Err(e) => {
            return Err(e);
        },
    };
    let mut names: Vec<String> = Vec::new();
    for i in 0..traits.len()
        invariant
            names.len() == i,
            forall|j: int| 0 <= j < i ==> (#[trigger] names[j])@ == traits[j].ident@,
    {
        names.push(traits[i].ident.clone());
    }
    assert(views(names@) =~= trait_idents(trait_views(traits@)));
    assert(names.len() == views(names@).len());
    Ok(names)
}

/// The name-level summary of `ast`.
pub struct Ir {
    pub enum_name: String,
    pub trait_names: Vec<String>,
    pub permutations: Vec<Vec<String>>,
}

/// Builds the name-level summary of `ast`; fails on the first reference without
/// a segment.
pub fn lower(ast: &Ast) -> (r: Result<Ir, AnalyzeError>)
    requires
        pow2(ast.paths.len() as nat) <= usize::MAX,
    ensures
        match r {
            Ok(ir) => {
                &&& well_formed_paths(ast@.paths)
                &&& ir.enum_name@ == ast.name@
                &&& exists|ts: Seq<crate::analyze::TraitView>|
                    is_extraction(ast@.paths, ts) && views(ir.trait_names@) == trait_idents(ts)
                &&& lists_every_combination(views(ir.trait_names@), deep_views(ir.permutations@))
            },
            Err(AnalyzeError::MalformedReference { index }) => first_malformed(ast@.paths, index as int),
        },
{
    let trait_names = match extract_trait_names(ast) {
        Ok(names) => names,
        Err(e) => {
            return Err(e);
        },
    };
    let permutations = generate_permutations(&trait_names);
    Ok(Ir { enum_name: ast.name.clone(), trait_names, permutations })
}

} // verus!
