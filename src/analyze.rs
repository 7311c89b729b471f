//! From the input to the model: the capabilities (traits), sorted by name, and
//! every combination of them, ranked from most to least specific.
use vstd::prelude::*;
use crate::ast::{Ast, AstView};
use crate::enumerate::{Ranked, copy_indices, is_permutation, sort_ranked, rank_combinations, combination_name, is_ordering, is_combination, members_of, views, pow2};
use crate::order::{ints, lex_lt, name_lt, precedes, lemma_precedes_total, lemma_precedes_asymmetric, lemma_lex_singletons};
use crate::enumerate::{strictly_ranked, lemma_ranked_unique};

verus! {

/// One capability: its display name (the reference's last segment) and the full reference.
pub struct Trait {
    pub ident: String,
    pub path: Vec<String>,
}

pub struct TraitView {
    pub ident: Seq<char>,
    pub path: Seq<Seq<char>>,
}

impl View for Trait {
    type V = TraitView;

    open spec fn view(&self) -> TraitView {
        TraitView { ident: self.ident@, path: self.path.deep_view() }
    }
}

/// Why no model could be built.
#[derive(Debug, Clone, Copy, PartialEq, Eq, Structural)]
pub enum AnalyzeError {
    /// The reference at `index` has no segment.
    MalformedReference { index: usize },
}

/// The position of the first reference without a segment, if there is one.
pub open spec fn first_malformed(paths: Seq<Seq<Seq<char>>>, index: int) -> bool {
    &&& 0 <= index < paths.len()
    &&& paths[index].len() == 0
    &&& forall|j: int| 0 <= j < index ==> (#[trigger] paths[j]).len() > 0
}

pub open spec fn well_formed_paths(paths: Seq<Seq<Seq<char>>>) -> bool {
    forall|j: int| 0 <= j < paths.len() ==> (#[trigger] paths[j]).len() > 0
}

/// `ts` are the references of `paths`, each named after its last segment, sorted
/// by name; references with equal names keep their input order.
pub open spec fn is_extraction(paths: Seq<Seq<Seq<char>>>, ts: Seq<TraitView>) -> bool {
    &&& ts.len() == paths.len()
    &&& exists|p: Seq<int>, q: Seq<int>| extracted_by(paths, ts, p, q)
}

/// `ts[k]` is the reference `paths[p[k]]`, and `ts` is sorted by name, then by `p`.
pub open spec fn extracted_by(paths: Seq<Seq<Seq<char>>>, ts: Seq<TraitView>, p: Seq<int>, q: Seq<int>) -> bool {
    &&& is_permutation(p, q, paths.len())
    &&& forall|k: int|
        0 <= k < ts.len() ==> (#[trigger] ts[k]).path == paths[p[k]] && ts[k].ident
            == paths[p[k]].last()
    &&& forall|a: int, b: int|
        #![trigger ts[a], ts[b]]
        0 <= a < b < ts.len() ==> name_lt(ts[a].ident, ts[b].ident) || (ts[a].ident
            == ts[b].ident && p[a] < p[b])
}

pub open spec fn trait_views(ts: Seq<Trait>) -> Seq<TraitView> {
    ts.map_values(|t: Trait| t@)
}

/// A copy of a reference's segments.
pub fn copy_path(p: &Vec<String>) -> (r: Vec<String>)
    ensures
        r.deep_view() == p.deep_view(),
{
    let mut r: Vec<String> = Vec::new();
    for i in 0..p.len()
        invariant
            r.len() == i,
            forall|t: int| 0 <= t < i ==> (#[trigger] r[t])@ == p[t]@,
    {
        r.push(p[i].clone());
    }
    assert(r.deep_view() =~= p.deep_view());
    r
}

/// Builds the capabilities of `ast`: one per reference, named after its last
/// segment, sorted by name. Fails on the first reference without a segment.
pub fn extract_traits(ast: &Ast) -> (r: Result<Vec<Trait>, AnalyzeError>)
    ensures
        match r {
            Ok(traits) => well_formed_paths(ast@.paths) && is_extraction(ast@.paths, trait_views(traits@)),
            Err(AnalyzeError::MalformedReference { index }) => first_malformed(ast@.paths, index as int),
        },
{
    let ghost paths = ast@.paths;
    let mut entries: Vec<Ranked> = Vec::new();
    for i in 0..ast.paths.len()
        invariant
            paths == ast@.paths,
            paths.len() == ast.paths.len(),
            entries.len() == i,
            forall|j: int| 0 <= j < i ==> (#[trigger] paths[j]).len() > 0,
            forall|t: int|
                0 <= t < i ==> (#[trigger] entries[t]).wf() && entries[t].members@ == seq![t as usize]
                    && entries[t].name@ == paths[t].last(),
    {
        let p = &ast.paths[i];
        assert(p.deep_view() == paths[i as int]);
        if p.len() == 0 {
            return Err(AnalyzeError::MalformedReference { index: i });
        }
        let ident = p[p.len() - 1].clone();
        let mut members: Vec<usize> = Vec::new();
        members.push(i);
        entries.push(Ranked::new(members, ident));
    }
    let ghost orig = entries@;
    sort_ranked(&mut entries);
    let ghost (p, q) = choose|p: Seq<int>, q: Seq<int>|
        is_permutation(p, q, orig.len() as nat) && forall|k: int|
            0 <= k < orig.len() ==> #[trigger] entries[k] == orig[p[k]];
    let mut traits: Vec<Trait> = Vec::new();
    for k in 0..entries.len()
        invariant
            paths == ast@.paths,
            paths.len() == ast.paths.len(),
            entries.len() == paths.len(),
            orig.len() == paths.len(),
            is_permutation(p, q, orig.len() as nat),
            forall|k: int| 0 <= k < orig.len() ==> #[trigger] entries[k] == orig[p[k]],
            forall|t: int|
                0 <= t < orig.len() ==> (#[trigger] orig[t]).wf() && orig[t].members@ == seq![t as usize]
                    && orig[t].name@ == paths[t].last(),
            traits.len() == k,
            forall|t: int|
                0 <= t < k ==> (#[trigger] traits[t])@.path == paths[p[t]] && traits[t]@.ident
                    == paths[p[t]].last(),
    {
        let e = &entries[k];
        assert(e == orig[p[k as int]]);
        let j = e.members[0];
        assert(j == p[k as int]);
        let path = copy_path(&ast.paths[j]);
        assert(ast.paths[j as int].deep_view() == paths[j as int]);
        traits.push(Trait { ident: e.name.clone(), path });
    }
    proof {
        let ts = trait_views(traits@);
        assert forall|a: int, b: int|
            #![trigger ts[a], ts[b]]
            0 <= a < b < ts.len() implies name_lt(ts[a].ident, ts[b].ident) || (ts[a].ident
                == ts[b].ident && p[a] < p[b]) by {
            let ea = entries[a];
            let eb = entries[b];
            assert(ea == orig[p[a]]);
            assert(eb == orig[p[b]]);
            assert(q[p[a]] == a && q[p[b]] == b);
            assert(ea.members@ != eb.members@) by {
                if ea.members@ == eb.members@ {
                    assert(ea.members@[0] == eb.members@[0]);
                }
            }
            lemma_precedes_total(ea.members@, ea.name@, eb.members@, eb.name@);
            let ia = ints(ea.members@);
            let ib = ints(eb.members@);
            assert(ia.len() == 1 && ib.len() == 1);
            assert(ia[0] == p[a] && ib[0] == p[b]);
            if ia[0] == ib[0] {
                assert(ia.drop_first().len() == 0);
                assert(ib.drop_first().len() == 0);
                assert(!lex_lt(ia.drop_first(), ib.drop_first()));
            }
            assert(lex_lt(ia, ib) == (p[a] < p[b]));
        }
        assert(extracted_by(paths, ts, p, q));
    }
    Ok(traits)
}

/// One combination of capabilities: its name and its members, as positions in
/// the model's capability list, in that list's order.
pub struct EnumVariant {
    pub ident: String,
    pub implemented_traits: Vec<usize>,
}

pub struct VariantView {
    pub ident: Seq<char>,
    pub implemented_traits: Seq<usize>,
}

impl View for EnumVariant {
    type V = VariantView;

    open spec fn view(&self) -> VariantView {
        VariantView { ident: self.ident@, implemented_traits: self.implemented_traits@ }
    }
}

/// Everything the later stages need: the type's name, its combinations ranked
/// from most to least specific, the name of the wrapper, and the capabilities.
pub struct Model {
    pub enum_ident: String,
    pub enum_variants: Vec<EnumVariant>,
    pub wrap_ident: String,
    pub traits: Vec<Trait>,
}

pub struct ModelView {
    pub enum_ident: Seq<char>,
    pub enum_variants: Seq<VariantView>,
    pub wrap_ident: Seq<char>,
    pub traits: Seq<TraitView>,
}

impl View for Model {
    type V = ModelView;

    open spec fn view(&self) -> ModelView {
        ModelView {
            enum_ident: self.enum_ident@,
            enum_variants: variant_views(self.enum_variants@),
            wrap_ident: self.wrap_ident@,
            traits: trait_views(self.traits@),
        }
    }
}

impl ModelView {
    /// Every member of every variant is a capability of the model.
    pub open spec fn wf(self) -> bool {
        forall|k: int, i: int|
            #![trigger self.enum_variants[k].implemented_traits[i]]
            0 <= k < self.enum_variants.len() && 0 <= i
                < self.enum_variants[k].implemented_traits.len()
                ==> self.enum_variants[k].implemented_traits[i] < self.traits.len()
    }
}

pub open spec fn variant_views(vs: Seq<EnumVariant>) -> Seq<VariantView> {
    vs.map_values(|v: EnumVariant| v@)
}

pub open spec fn trait_idents(ts: Seq<TraitView>) -> Seq<Seq<char>> {
    ts.map_values(|t: TraitView| t.ident)
}

pub open spec fn variant_members(vs: Seq<VariantView>) -> Seq<Seq<usize>> {
    vs.map_values(|v: VariantView| v.implemented_traits)
}

/// `vs` holds one variant per combination of `ts`, named after `prefix`, ranked
/// from most to least specific.
pub open spec fn is_variant_ordering(prefix: Seq<char>, ts: Seq<TraitView>, vs: Seq<VariantView>) -> bool {
    &&& forall|k: int|
        0 <= k < vs.len() ==> (#[trigger] vs[k]).ident == combination_name(
            prefix,
            trait_idents(ts),
            vs[k].implemented_traits,
        )
    &&& is_ordering(variant_members(vs), ts.len() as nat, prefix, trait_idents(ts))
}

/// What `analyze` builds from `a`.
pub open spec fn is_model_of(a: AstView, m: ModelView) -> bool {
    &&& m.enum_ident == a.name
    &&& m.wrap_ident == "Wrap"@ + a.name
    &&& is_extraction(a.paths, m.traits)
    &&& is_variant_ordering(a.name, m.traits, m.enum_variants)
}

/// Every combination of `traits`, named after the type (`TypeNone` for the
/// empty one), most specific first.
pub fn generate_enum_variants(ast: &Ast, traits: &Vec<Trait>) -> (r: Vec<EnumVariant>)
    requires
        pow2(traits.len() as nat) <= usize::MAX,
    ensures
        r.len() == pow2(traits.len() as nat),
        is_variant_ordering(ast.name@, trait_views(traits@), variant_views(r@)),
{
    let mut idents: Vec<String> = Vec::new();
    for i in 0..traits.len()
        invariant
            idents.len() == i,
            forall|t: int| 0 <= t < i ==> (#[trigger] idents[t])@ == traits[t].ident@,
    {
        idents.push(traits[i].ident.clone());
    }
    let ghost ids = trait_idents(trait_views(traits@));
    assert(views(idents@) =~= ids);
    let entries = rank_combinations(&ast.name, &idents);
    let mut r: Vec<EnumVariant> = Vec::new();
    for k in 0..entries.len()
        invariant
            ids == views(idents@),
            r.len() == k,
            forall|t: int|
                0 <= t < k ==> (#[trigger] r[t])@.ident == entries[t].name@
                    && r[t]@.implemented_traits == entries[t].members@,
    {
        let e = &entries[k];
        r.push(EnumVariant { ident: e.name.clone(), implemented_traits: copy_indices(&e.members) });
    }
    proof {
        let vs = variant_views(r@);
        assert(variant_members(vs) =~= members_of(entries@));
        assert forall|k: int| 0 <= k < vs.len() implies (#[trigger] vs[k]).ident == combination_name(
            ast.name@,
            ids,
            vs[k].implemented_traits,
        ) by {
            assert(r[k]@ == vs[k]);
        }
    }
    r
}

/// Builds the model of `ast`; fails on the first reference without a segment.
pub fn analyze(ast: &Ast) -> (r: Result<Model, AnalyzeError>)
    requires
        pow2(ast.paths.len() as nat) <= usize::MAX,
    ensures
        match r {
            Ok(m) => well_formed_paths(ast@.paths) && is_model_of(ast@, m@) && m@.wf(),
            Err(AnalyzeError::MalformedReference { index }) => first_malformed(ast@.paths, index as int),
        },
{
    let traits = match extract_traits(ast) {
        Ok(traits) => traits,
        Err(e) => {
            return Err(e);
        },
    };
    let enum_variants = generate_enum_variants(ast, &traits);
    let mut wrap_ident = String::from_str("Wrap");
    wrap_ident.append(ast.name.as_str());
    let m = Model { enum_ident: ast.name.clone(), enum_variants, wrap_ident, traits };
    proof {
        let mv = m@;
        assert forall|k: int, i: int|
            #![trigger mv.enum_variants[k].implemented_traits[i]]
            0 <= k < mv.enum_variants.len() && 0 <= i < mv.enum_variants[k].implemented_traits.len()
            implies mv.enum_variants[k].implemented_traits[i] < mv.traits.len() by {
            assert(variant_members(mv.enum_variants)[k] == mv.enum_variants[k].implemented_traits);
            assert(is_combination(variant_members(mv.enum_variants)[k], mv.traits.len() as nat));
        }
    }
    Ok(m)
}

/// Ordering law: a variant with more members comes before one with fewer; among
/// variants with equally many members, one with a smaller name comes first, and
/// no later variant has a smaller name than an earlier one.
pub proof fn lemma_variant_order(prefix: Seq<char>, ts: Seq<TraitView>, vs: Seq<VariantView>, a: int, b: int)
    requires
        is_variant_ordering(prefix, ts, vs),
        0 <= a < vs.len(),
        0 <= b < vs.len(),
    ensures
        vs[a].implemented_traits.len() > vs[b].implemented_traits.len() ==> a < b,
        vs[a].implemented_traits.len() == vs[b].implemented_traits.len() && name_lt(vs[a].ident, vs[b].ident) ==> a < b,
        vs[a].implemented_traits.len() == vs[b].implemented_traits.len() && a < b ==> !name_lt(vs[b].ident, vs[a].ident),
{
    let ms = variant_members(vs);
    let ids = trait_idents(ts);
    assert(ms[a] == vs[a].implemented_traits && ms[b] == vs[b].implemented_traits);
    assert(vs[a].ident == combination_name(prefix, ids, ms[a]));
    assert(vs[b].ident == combination_name(prefix, ids, ms[b]));
    if a < b {
        assert(precedes(ms[a], vs[a].ident, ms[b], vs[b].ident));
        lemma_precedes_asymmetric(ms[a], vs[a].ident, ms[b], vs[b].ident);
    } else if b < a {
        assert(precedes(ms[b], vs[b].ident, ms[a], vs[a].ident));
        lemma_precedes_asymmetric(ms[b], vs[b].ident, ms[a], vs[a].ident);
    } else {
        crate::order::lemma_lex_irreflexive(crate::order::codes(vs[a].ident));
    }
}

pub open spec fn variant_keys(vs: Seq<VariantView>) -> Seq<(Seq<usize>, Seq<char>)> {
    vs.map_values(|v: VariantView| (v.implemented_traits, v.ident))
}

/// Determinism law: the variants, their order and their names are fixed by the
/// type's name and the capabilities alone.
pub proof fn lemma_variants_deterministic(
    prefix: Seq<char>,
    ts: Seq<TraitView>,
    vs1: Seq<VariantView>,
    vs2: Seq<VariantView>,
)
    requires
        ts.len() <= usize::MAX,
        is_variant_ordering(prefix, ts, vs1),
        is_variant_ordering(prefix, ts, vs2),
    ensures
        vs1 == vs2,
{
    let ids = trait_idents(ts);
    let n = ts.len() as nat;
    let k1 = variant_keys(vs1);
    let k2 = variant_keys(vs2);
    let m1 = variant_members(vs1);
    let m2 = variant_members(vs2);
    assert(strictly_ranked(k1)) by {
        assert forall|a: int, b: int|
            #![trigger k1[a], k1[b]]
            0 <= a < b < k1.len() implies precedes(k1[a].0, k1[a].1, k1[b].0, k1[b].1) by {
            assert(m1[a] == k1[a].0 && m1[b] == k1[b].0);
            assert(vs1[a].ident == combination_name(prefix, ids, m1[a]));
            assert(vs1[b].ident == combination_name(prefix, ids, m1[b]));
        }
    }
    assert(strictly_ranked(k2)) by {
        assert forall|a: int, b: int|
            #![trigger k2[a], k2[b]]
            0 <= a < b < k2.len() implies precedes(k2[a].0, k2[a].1, k2[b].0, k2[b].1) by {
            assert(m2[a] == k2[a].0 && m2[b] == k2[b].0);
            assert(vs2[a].ident == combination_name(prefix, ids, m2[a]));
            assert(vs2[b].ident == combination_name(prefix, ids, m2[b]));
        }
    }
    let f = Seq::new(k1.len(), |i: int| choose|j: int| 0 <= j < m2.len() && m2[j] == m1[i]);
    let g = Seq::new(k2.len(), |j: int| choose|i: int| 0 <= i < m1.len() && m1[i] == m2[j]);
    assert forall|i: int| 0 <= i < k1.len() implies 0 <= #[trigger] f[i] < k2.len() && k2[f[i]] == k1[i] by {
        assert(m1[i] == vs1[i].implemented_traits);
        assert(is_combination(m1[i], n));
        let j = f[i];
        assert(0 <= j < k2.len() && m2[j] == m1[i]);
        assert(vs1[i].ident == combination_name(prefix, ids, m1[i]));
        assert(vs2[j].ident == combination_name(prefix, ids, m2[j]));
    }
    assert forall|j: int| 0 <= j < k2.len() implies 0 <= #[trigger] g[j] < k1.len() && k1[g[j]] == k2[j] by {
        assert(m2[j] == vs2[j].implemented_traits);
        assert(is_combination(m2[j], n));
        let i = g[j];
        assert(0 <= i < k1.len() && m1[i] == m2[j]);
        assert(vs1[i].ident == combination_name(prefix, ids, m1[i]));
        assert(vs2[j].ident == combination_name(prefix, ids, m2[j]));
    }
    lemma_ranked_unique(k1, k2, f, g);
    assert forall|k: int| 0 <= k < vs1.len() implies vs1[k] == vs2[k] by {
        assert(k1[k] == k2[k]);
    }
    assert(vs1 =~= vs2);
}

pub open spec fn trait_keys(ts: Seq<TraitView>, p: Seq<int>) -> Seq<(Seq<usize>, Seq<char>)> {
    Seq::new(ts.len(), |k: int| (seq![p[k] as usize], ts[k].ident))
}

/// The capabilities are fixed by the references alone.
pub proof fn lemma_extraction_unique(paths: Seq<Seq<Seq<char>>>, ts1: Seq<TraitView>, ts2: Seq<TraitView>)
    requires
        paths.len() <= usize::MAX,
        is_extraction(paths, ts1),
        is_extraction(paths, ts2),
    ensures
        ts1 == ts2,
{
    let (pa, qa) = choose|p: Seq<int>, q: Seq<int>| extracted_by(paths, ts1, p, q);
    let (pb, qb) = choose|p: Seq<int>, q: Seq<int>| extracted_by(paths, ts2, p, q);
    let k1 = trait_keys(ts1, pa);
    let k2 = trait_keys(ts2, pb);
    assert(strictly_ranked(k1)) by {
        assert forall|a: int, b: int|
            #![trigger k1[a], k1[b]]
            0 <= a < b < k1.len() implies precedes(k1[a].0, k1[a].1, k1[b].0, k1[b].1) by {
            assert(name_lt(ts1[a].ident, ts1[b].ident) || (ts1[a].ident == ts1[b].ident && pa[a] < pa[b]));
            lemma_lex_singletons(pa[a] as usize, pa[b] as usize);
        }
    }
    assert(strictly_ranked(k2)) by {
        assert forall|a: int, b: int|
            #![trigger k2[a], k2[b]]
            0 <= a < b < k2.len() implies precedes(k2[a].0, k2[a].1, k2[b].0, k2[b].1) by {
            assert(name_lt(ts2[a].ident, ts2[b].ident) || (ts2[a].ident == ts2[b].ident && pb[a] < pb[b]));
            lemma_lex_singletons(pb[a] as usize, pb[b] as usize);
        }
    }
    let f = Seq::new(k1.len(), |i: int| qb[pa[i]]);
    let g = Seq::new(k2.len(), |j: int| qa[pb[j]]);
    assert forall|i: int| 0 <= i < k1.len() implies 0 <= #[trigger] f[i] < k2.len() && k2[f[i]] == k1[i] by {
        let j = qb[pa[i]];
        assert(ts1[i].ident == paths[pa[i]].last());
        assert(ts2[j].ident == paths[pb[j]].last());
    }
    assert forall|j: int| 0 <= j < k2.len() implies 0 <= #[trigger] g[j] < k1.len() && k1[g[j]] == k2[j] by {
        let i = qa[pb[j]];
        assert(ts1[i].ident == paths[pa[i]].last());
        assert(ts2[j].ident == paths[pb[j]].last());
    }
    lemma_ranked_unique(k1, k2, f, g);
    assert forall|k: int| 0 <= k < ts1.len() implies ts1[k] == ts2[k] by {
        assert(k1[k] == k2[k]);
        assert(k1[k].0[0] == pa[k] as usize);
        assert(k2[k].0[0] == pb[k] as usize);
        assert(ts1[k].path == paths[pa[k]]);
        assert(ts2[k].path == paths[pb[k]]);
    }
    assert(ts1 =~= ts2);
}

/// Determinism of the first stage: one input has one model.
pub proof fn lemma_model_deterministic(a: AstView, m1: ModelView, m2: ModelView)
    requires
        a.paths.len() <= usize::MAX,
        is_model_of(a, m1),
        is_model_of(a, m2),
    ensures
        m1 == m2,
{
    lemma_extraction_unique(a.paths, m1.traits, m2.traits);
    lemma_variants_deterministic(a.name, m1.traits, m1.enum_variants, m2.enum_variants);
}

/// A value that has the capabilities marked in `satisfied` fits a combination
/// when it has every member of it.
pub open spec fn applies(members: Seq<usize>, satisfied: Seq<bool>) -> bool {
    forall|i: int| 0 <= i < members.len() ==> satisfied[members[i] as int]
}

fn satisfies(members: &Vec<usize>, satisfied: &Vec<bool>) -> (r: bool)
    requires
        forall|i: int| 0 <= i < members.len() ==> members[i] < satisfied.len(),
    ensures
        r == applies(members@, satisfied@),
{
    for i in 0..members.len()
        invariant
            forall|i: int| 0 <= i < members.len() ==> members[i] < satisfied.len(),
            forall|j: int| 0 <= j < i ==> satisfied@[members[j] as int],
    {
        if !satisfied[members[i]] {
            return false;
        }
    }
    true
}

/// Dispatch by ordered checks: the position of the first variant, in the model's
/// order, that a value with the capabilities marked in `satisfied` fits.
pub fn select_variant(m: &Model, satisfied: &Vec<bool>) -> (r: Option<usize>)
    requires
        m@.wf(),
        satisfied.len() == m.traits.len(),
    ensures
        match r {
            Some(k) => {
                &&& k < m@.enum_variants.len()
                &&& applies(m@.enum_variants[k as int].implemented_traits, satisfied@)
                &&& forall|j: int| 0 <= j < k ==> !applies(#[trigger] m@.enum_variants[j].implemented_traits, satisfied@)
            },
            None => forall|j: int|
                0 <= j < m@.enum_variants.len() ==> !applies(#[trigger] m@.enum_variants[j].implemented_traits, satisfied@),
        },
{
    let ghost vs = m@.enum_variants;
    for k in 0..m.enum_variants.len()
        invariant
            vs == m@.enum_variants,
            vs.len() == m.enum_variants.len(),
            m@.wf(),
            satisfied.len() == m.traits.len(),
            forall|j: int| 0 <= j < k ==> !applies(#[trigger] vs[j].implemented_traits, satisfied@),
    {
        let v = &m.enum_variants[k];
        assert(vs[k as int] == v@);
        assert(m@.traits.len() == m.traits.len());
        assert forall|i: int| 0 <= i < v.implemented_traits.len() implies v.implemented_traits[i] < satisfied.len() by {
            assert(vs[k as int].implemented_traits[i] == v.implemented_traits[i]);
        }
        if satisfies(&v.implemented_traits, satisfied) {
            return Some(k);
        }
    }
    None
}

/// The satisfied positions below `n`, in increasing order.
pub open spec fn satisfied_combination(satisfied: Seq<bool>, n: nat) -> Seq<usize>
    decreases n,
{
    if n == 0 {
        Seq::empty()
    } else {
        let rest = satisfied_combination(satisfied, (n - 1) as nat);
        if satisfied[n - 1] {
            rest.push((n - 1) as usize)
        } else {
            rest
        }
    }
}

proof fn lemma_satisfied_combination(satisfied: Seq<bool>, n: nat)
    requires
        n <= satisfied.len(),
        n <= usize::MAX,
    ensures
        is_combination(satisfied_combination(satisfied, n), n),
        applies(satisfied_combination(satisfied, n), satisfied),
        forall|i: usize| #[trigger] satisfied_combination(satisfied, n).contains(i) <==> (i < n && satisfied[i as int]),
    decreases n,
{
    if n > 0 {
        let m = (n - 1) as nat;
        lemma_satisfied_combination(satisfied, m);
        let rest = satisfied_combination(satisfied, m);
        let c = satisfied_combination(satisfied, n);
        assert forall|i: usize| #[trigger] c.contains(i) <==> (i < n && satisfied[i as int]) by {
            if satisfied[m as int] {
                if i == m {
                    assert(c[rest.len() as int] == i);
                }
                if c.contains(i) && i != m {
                    let j = choose|j: int| 0 <= j < c.len() && c[j] == i;
                    assert(rest[j] == i);
                    assert(rest.contains(i));
                }
                if rest.contains(i) {
                    let j = choose|j: int| 0 <= j < rest.len() && rest[j] == i;
                    assert(c[j] == i);
                }
            }
        }
        if satisfied[m as int] {
            assert forall|i: int, j: int| 0 <= i < j < c.len() implies c[i] < c[j] by {
                if j == c.len() - 1 {
                    assert(rest.contains(c[i]));
                }
            }
        }
    }
}

proof fn lemma_increasing_set_len(s: Seq<usize>, n: nat)
    requires
        is_combination(s, n),
    ensures
        s.to_set().len() == s.len(),
        s.to_set().finite(),
{
    assert(s.no_duplicates()) by {
        assert forall|i: int, j: int| 0 <= i < s.len() && 0 <= j < s.len() && i != j implies s[i] != s[j] by {
            if i < j {
                assert(s[i] < s[j]);
            } else {
                assert(s[j] < s[i]);
            }
        }
    }
    s.unique_seq_to_set();
}

/// Some variant of an analyzed model fits every value: the empty combination does.
pub proof fn lemma_selection_succeeds(a: AstView, m: ModelView, satisfied: Seq<bool>)
    requires
        is_model_of(a, m),
        m.traits.len() <= usize::MAX,
        satisfied.len() == m.traits.len(),
    ensures
        exists|k: int| 0 <= k < m.enum_variants.len() && applies(#[trigger] m.enum_variants[k].implemented_traits, satisfied),
{
    let ms = variant_members(m.enum_variants);
    let e = Seq::<usize>::empty();
    assert(is_combination(e, m.traits.len() as nat));
    let k = choose|k: int| 0 <= k < ms.len() && ms[k] == e;
    assert(m.enum_variants[k].implemented_traits == e);
}

/// Dispatch law: the first variant that a value fits has exactly the value's
/// capabilities as members. The ranking puts the most specific fitting
/// combination before every other that fits.
pub proof fn lemma_selection_is_most_specific(a: AstView, m: ModelView, satisfied: Seq<bool>, k: int)
    requires
        is_model_of(a, m),
        m.traits.len() <= usize::MAX,
        satisfied.len() == m.traits.len(),
        0 <= k < m.enum_variants.len(),
        applies(m.enum_variants[k].implemented_traits, satisfied),
        forall|j: int| 0 <= j < k ==> !applies(#[trigger] m.enum_variants[j].implemented_traits, satisfied),
    ensures
        forall|i: usize|
            i < satisfied.len() ==> (satisfied[i as int] <==> #[trigger] m.enum_variants[k].implemented_traits.contains(i)),
{
    let n = m.traits.len() as nat;
    let vs = m.enum_variants;
    let ms = variant_members(vs);
    let ids = trait_idents(m.traits);
    let best = satisfied_combination(satisfied, n);
    lemma_satisfied_combination(satisfied, n);
    let p = choose|p: int| 0 <= p < ms.len() && ms[p] == best;
    assert(vs[p].implemented_traits == best);
    let chosen = vs[k].implemented_traits;
    assert(ms[k] == chosen);
    assert(is_combination(chosen, n));
    if p < k {
        assert(!applies(vs[p].implemented_traits, satisfied));
    }
    if k < p {
        assert(precedes(ms[k], combination_name(a.name, ids, ms[k]), ms[p], combination_name(a.name, ids, ms[p])));
    }
    assert(chosen.len() >= best.len());
    lemma_increasing_set_len(chosen, n);
    lemma_increasing_set_len(best, n);
    assert(chosen.to_set().subset_of(best.to_set())) by {
        assert forall|x: usize| chosen.to_set().contains(x) implies best.to_set().contains(x) by {
            let j = choose|j: int| 0 <= j < chosen.len() && chosen[j] == x;
            assert(satisfied[chosen[j] as int]);
            assert(best.contains(x));
        }
    }
    vstd::set_lib::lemma_len_subset(chosen.to_set(), best.to_set());
    vstd::set_lib::lemma_subset_equality(chosen.to_set(), best.to_set());
    assert forall|i: usize| i < satisfied.len() implies (satisfied[i as int] <==> #[trigger] chosen.contains(i)) by {
        assert(best.contains(i) <==> best.to_set().contains(i));
        assert(chosen.contains(i) <==> chosen.to_set().contains(i));
    }
}

} // verus!
