//! From the model to the pieces that the emitter renders: the aggregate traits,
//! the enum, its accessor functions, and the specialization scaffold.
use vstd::prelude::*;
use convert_case::{Case, Casing};
use crate::analyze::{Model, ModelView, Trait, TraitView, VariantView, copy_path, trait_views};
use crate::analyze::EnumVariant as AnalyzedVariant;
use crate::ast::AstView;
use crate::analyze::{is_model_of, variant_members, lemma_model_deterministic};
use crate::enumerate::{is_combination, pow2, lemma_pow2_monotonic};

verus! {

/// The snake-case form of an identifier (`TestEnum` becomes `test_enum`), as the
/// convert_case crate computes it.
pub uninterp spec fn snake_case_of(s: Seq<char>) -> Seq<char>;

/// Relies on convert_case's `Casing::to_case` with `Case::Snake`: its result
/// depends on the characters of `s` alone.
#[verifier::external_body]
fn to_snake_case(s: &String) -> (r: String)
    ensures
        r@ == snake_case_of(s@),
{
    s.to_case(Case::Snake)
}

/// A trait that bundles the capabilities of one combination.
pub struct TraitAggregate {
    pub name: String,
    pub traits: Vec<Trait>,
}

pub struct TraitAggregateView {
    pub name: Seq<char>,
    pub traits: Seq<TraitView>,
}

impl View for TraitAggregate {
    type V = TraitAggregateView;

    open spec fn view(&self) -> TraitAggregateView {
        TraitAggregateView { name: self.name@, traits: crate::analyze::trait_views(self.traits@) }
    }
}

/// What a variant's reference must implement.
pub enum Constraint {
    /// Nothing.
    Unbounded,
    /// The one capability at this path.
    Path(Vec<String>),
    /// The aggregate trait of this name.
    Ident(String),
}

pub enum ConstraintView {
    Unbounded,
    Path(Seq<Seq<char>>),
    Ident(Seq<char>),
}

impl View for Constraint {
    type V = ConstraintView;

    open spec fn view(&self) -> ConstraintView {
        match self {
            Constraint::Unbounded => ConstraintView::Unbounded,
            Constraint::Path(p) => ConstraintView::Path(p.deep_view()),
            Constraint::Ident(i) => ConstraintView::Ident(i@),
        }
    }
}

/// One variant of the generated enum.
pub struct EnumVariant {
    pub ident: String,
    pub constraint: Constraint,
}

pub struct EnumVariantView {
    pub ident: Seq<char>,
    pub constraint: ConstraintView,
}

impl View for EnumVariant {
    type V = EnumVariantView;

    open spec fn view(&self) -> EnumVariantView {
        EnumVariantView { ident: self.ident@, constraint: self.constraint@ }
    }
}

/// The generated enum.
pub struct Enum {
    pub name: String,
    pub variants: Vec<EnumVariant>,
}

pub struct EnumView {
    pub name: Seq<char>,
    pub variants: Seq<EnumVariantView>,
}

impl View for Enum {
    type V = EnumView;

    open spec fn view(&self) -> EnumView {
        EnumView { name: self.name@, variants: self.variants@.map_values(|v: EnumVariant| v@) }
    }
}

/// An accessor: its name, the capability it returns, and the variants that have it.
pub struct Function {
    pub name: String,
    pub result_path: Vec<String>,
    pub matching_variants: Vec<String>,
}

pub struct FunctionView {
    pub name: Seq<char>,
    pub result_path: Seq<Seq<char>>,
    pub matching_variants: Seq<Seq<char>>,
}

impl View for Function {
    type V = FunctionView;

    open spec fn view(&self) -> FunctionView {
        FunctionView {
            name: self.name@,
            result_path: self.result_path.deep_view(),
            matching_variants: self.matching_variants.deep_view(),
        }
    }
}

/// The accessors of the generated enum.
pub struct EnumImpl {
    pub functions: Vec<Function>,
}

pub open spec fn function_views(fs: Seq<Function>) -> Seq<FunctionView> {
    fs.map_values(|f: Function| f@)
}

/// One rung of the specialization scaffold: its tag type, its match trait, how
/// many references deep it sits, its variant and the variant's constraint.
pub struct AutorefSpecializer {
    pub tag: String,
    pub match_ident: String,
    pub deref_count: usize,
    pub variant: String,
    pub constraint: Constraint,
}

pub struct AutorefSpecializerView {
    pub tag: Seq<char>,
    pub match_ident: Seq<char>,
    pub deref_count: nat,
    pub variant: Seq<char>,
    pub constraint: ConstraintView,
}

impl View for AutorefSpecializer {
    type V = AutorefSpecializerView;

    open spec fn view(&self) -> AutorefSpecializerView {
        AutorefSpecializerView {
            tag: self.tag@,
            match_ident: self.match_ident@,
            deref_count: self.deref_count as nat,
            variant: self.variant@,
            constraint: self.constraint@,
        }
    }
}

/// Everything the emitter renders.
pub struct Ir {
    pub trait_aggregates: Vec<TraitAggregate>,
    pub enum_def: Enum,
    pub enum_impl: EnumImpl,
    pub autoref_specializers: Vec<AutorefSpecializer>,
    pub wrap_ident: String,
    pub wrap_derefs: usize,
    pub into: String,
    pub into_tag: String,
}

pub struct IrView {
    pub trait_aggregates: Seq<TraitAggregateView>,
    pub enum_def: EnumView,
    pub functions: Seq<FunctionView>,
    pub autoref_specializers: Seq<AutorefSpecializerView>,
    pub wrap_ident: Seq<char>,
    pub wrap_derefs: nat,
    pub into: Seq<char>,
    pub into_tag: Seq<char>,
}

impl View for Ir {
    type V = IrView;

    open spec fn view(&self) -> IrView {
        IrView {
            trait_aggregates: self.trait_aggregates@.map_values(|a: TraitAggregate| a@),
            enum_def: self.enum_def@,
            functions: function_views(self.enum_impl.functions@),
            autoref_specializers: self.autoref_specializers@.map_values(|s: AutorefSpecializer| s@),
            wrap_ident: self.wrap_ident@,
            wrap_derefs: self.wrap_derefs as nat,
            into: self.into@,
            into_tag: self.into_tag@,
        }
    }
}

/// A variant's constraint: none for no member, the capability itself for one
/// member, the variant's aggregate trait for more.
pub open spec fn constraint_of(ts: Seq<TraitView>, v: VariantView) -> ConstraintView {
    if v.implemented_traits.len() == 0 {
        ConstraintView::Unbounded
    } else if v.implemented_traits.len() == 1 {
        ConstraintView::Path(ts[v.implemented_traits[0] as int].path)
    } else {
        ConstraintView::Ident(v.ident)
    }
}

/// The aggregate of a variant: named after it, bundling its members in order.
pub open spec fn aggregate_of(ts: Seq<TraitView>, v: VariantView) -> TraitAggregateView {
    TraitAggregateView {
        name: v.ident,
        traits: v.implemented_traits.map_values(|i: usize| ts[i as int]),
    }
}

/// One aggregate for each variant with more than one member, in order.
pub open spec fn aggregates_of(ts: Seq<TraitView>, vs: Seq<VariantView>) -> Seq<TraitAggregateView>
    decreases vs.len(),
{
    if vs.len() == 0 {
        Seq::empty()
    } else {
        let rest = aggregates_of(ts, vs.drop_last());
        if vs.last().implemented_traits.len() > 1 {
            rest.push(aggregate_of(ts, vs.last()))
        } else {
            rest
        }
    }
}

/// The names of the variants that have the capability at position `t`, in order.
pub open spec fn matching_of(vs: Seq<VariantView>, t: usize) -> Seq<Seq<char>>
    decreases vs.len(),
{
    if vs.len() == 0 {
        Seq::empty()
    } else {
        let rest = matching_of(vs.drop_last(), t);
        if vs.last().implemented_traits.contains(t) {
            rest.push(vs.last().ident)
        } else {
            rest
        }
    }
}

/// The accessor for the capability at position `t`, whose snake-case name is `snake`.
pub open spec fn function_of(m: ModelView, t: usize, snake: Seq<char>) -> FunctionView {
    FunctionView {
        name: "try_as_"@ + snake,
        result_path: m.traits[t as int].path,
        matching_variants: matching_of(m.enum_variants, t),
    }
}

pub open spec fn enum_of(m: ModelView) -> EnumView {
    EnumView {
        name: m.enum_ident,
        variants: m.enum_variants.map_values(
            |v: VariantView| EnumVariantView { ident: v.ident, constraint: constraint_of(m.traits, v) },
        ),
    }
}

pub open spec fn specializer_of(ts: Seq<TraitView>, v: VariantView) -> AutorefSpecializerView {
    AutorefSpecializerView {
        tag: v.ident + "Tag"@,
        match_ident: v.ident + "Match"@,
        deref_count: v.implemented_traits.len(),
        variant: v.ident,
        constraint: constraint_of(ts, v),
    }
}

pub open spec fn functions_of(m: ModelView) -> Seq<FunctionView> {
    Seq::new(
        m.traits.len(),
        |t: int| function_of(m, t as usize, snake_case_of(m.traits[t].ident)),
    )
}

/// The whole intermediate representation of a model.
pub open spec fn ir_of(m: ModelView) -> IrView {
    IrView {
        trait_aggregates: aggregates_of(m.traits, m.enum_variants),
        enum_def: enum_of(m),
        functions: functions_of(m),
        autoref_specializers: m.enum_variants.map_values(|v: VariantView| specializer_of(m.traits, v)),
        wrap_ident: m.wrap_ident,
        wrap_derefs: m.traits.len() + 1,
        into: "into_"@ + snake_case_of(m.enum_ident),
        into_tag: "into_"@ + snake_case_of(m.enum_ident) + "_tag"@,
    }
}

fn copy_trait(t: &Trait) -> (r: Trait)
    ensures
        r@ == t@,
{
    Trait { ident: t.ident.clone(), path: copy_path(&t.path) }
}

/// The constraint of variant `v` of model `m`.
pub fn enum_variant_to_constraint(m: &Model, v: &AnalyzedVariant) -> (r: Constraint)
    requires
        forall|i: int| 0 <= i < v.implemented_traits.len() ==> v.implemented_traits[i] < m.traits.len(),
    ensures
        r@ == constraint_of(m@.traits, v@),
{
    let n = v.implemented_traits.len();
    if n == 0 {
        Constraint::Unbounded
    } else if n == 1 {
        let t = v.implemented_traits[0];
        assert(m@.traits[t as int] == m.traits[t as int]@);
        Constraint::Path(copy_path(&m.traits[t].path))
    } else {
        Constraint::Ident(v.ident.clone())
    }
}

proof fn lemma_variant_view(m: &Model, k: int)
    requires
        0 <= k < m.enum_variants.len(),
    ensures
        m@.enum_variants[k] == m.enum_variants[k]@,
        m@.enum_variants.len() == m.enum_variants.len(),
        m@.traits.len() == m.traits.len(),
{
}

/// One aggregate trait for each variant with more than one member, in order.
pub fn generate_trait_aggregates(m: &Model) -> (r: Vec<TraitAggregate>)
    requires
        m@.wf(),
    ensures
        r@.map_values(|a: TraitAggregate| a@) == aggregates_of(m@.traits, m@.enum_variants),
{
    let ghost vs = m@.enum_variants;
    let ghost ts = m@.traits;
    let mut r: Vec<TraitAggregate> = Vec::new();
    for k in 0..m.enum_variants.len()
        invariant
            vs == m@.enum_variants,
            ts == m@.traits,
            vs.len() == m.enum_variants.len(),
            m@.wf(),
            r@.map_values(|a: TraitAggregate| a@) == aggregates_of(ts, vs.subrange(0, k as int)),
    {
        let v = &m.enum_variants[k];
        proof {
            lemma_variant_view(m, k as int);
            let sub = vs.subrange(0, k + 1);
            assert(sub.drop_last() =~= vs.subrange(0, k as int));
            assert(sub.last() == v@);
        }
        if v.implemented_traits.len() > 1 {
            let mut traits: Vec<Trait> = Vec::new();
            for i in 0..v.implemented_traits.len()
                invariant
                    vs == m@.enum_variants,
                    ts == m@.traits,
                    m@.wf(),
                    v@ == vs[k as int],
                    0 <= k < vs.len(),
                    traits.len() == i,
                    forall|j: int| 0 <= j < i ==> (#[trigger] traits[j])@ == ts[v.implemented_traits[j] as int],
            {
                let t = v.implemented_traits[i];
                assert(vs[k as int].implemented_traits[i as int] == t);
                assert(ts[t as int] == m.traits[t as int]@);
                traits.push(copy_trait(&m.traits[t]));
            }
            let ghost before = r@.map_values(|a: TraitAggregate| a@);
            assert(trait_views(traits@) =~= v@.implemented_traits.map_values(|i: usize| ts[i as int]));
            let agg = TraitAggregate { name: v.ident.clone(), traits };
            assert(agg@ == aggregate_of(ts, v@));
            r.push(agg);
            assert(r@.map_values(|a: TraitAggregate| a@) =~= before.push(aggregate_of(ts, v@)));
        }
    }
    assert(vs.subrange(0, vs.len() as int) =~= vs);
    r
}

/// The generated enum: one variant per combination, in the model's order.
pub fn generate_enum(m: &Model) -> (r: Enum)
    requires
        m@.wf(),
    ensures
        r@ == enum_of(m@),
{
    let ghost vs = m@.enum_variants;
    let ghost ts = m@.traits;
    let mut variants: Vec<EnumVariant> = Vec::new();
    for k in 0..m.enum_variants.len()
        invariant
            vs == m@.enum_variants,
            ts == m@.traits,
            vs.len() == m.enum_variants.len(),
            m@.wf(),
            variants.len() == k,
            forall|j: int|
                0 <= j < k ==> (#[trigger] variants[j])@ == (EnumVariantView {
                    ident: vs[j].ident,
                    constraint: constraint_of(ts, vs[j]),
                }),
    {
        let v = &m.enum_variants[k];
        proof {
            lemma_variant_view(m, k as int);
            assert forall|i: int| 0 <= i < v.implemented_traits.len() implies v.implemented_traits[i] < m.traits.len() by {
                assert(vs[k as int].implemented_traits[i] == v.implemented_traits[i]);
            }
        }
        let constraint = enum_variant_to_constraint(m, v);
        variants.push(EnumVariant { ident: v.ident.clone(), constraint });
    }
    let r = Enum { name: m.enum_ident.clone(), variants };
    assert(r@.variants =~= enum_of(m@).variants);
    r
}

/// Whether `t` is among `members`.
fn has_member(members: &Vec<usize>, t: usize) -> (r: bool)
    ensures
        r == members@.contains(t),
{
    for i in 0..members.len()
        invariant
            forall|j: int| 0 <= j < i ==> members[j] != t,
    {
        if members[i] == t {
            return true;
        }
    }
    false
}

/// The accessor for the capability at position `t`, named after `snake`, the
/// snake-case form of the capability's name: it recognizes every variant that
/// has the capability, in the model's order.
pub fn function_for_trait(m: &Model, t: usize, snake: &String) -> (r: Function)
    requires
        t < m.traits.len(),
    ensures
        r@ == function_of(m@, t, snake@),
{
    let ghost vs = m@.enum_variants;
    let mut name = String::from_str("try_as_");
    name.append(snake.as_str());
    let mut matching: Vec<String> = Vec::new();
    for k in 0..m.enum_variants.len()
        invariant
            vs == m@.enum_variants,
            vs.len() == m.enum_variants.len(),
            matching.deep_view() == matching_of(vs.subrange(0, k as int), t),
    {
        let v = &m.enum_variants[k];
        proof {
            lemma_variant_view(m, k as int);
            let sub = vs.subrange(0, k + 1);
            assert(sub.drop_last() =~= vs.subrange(0, k as int));
            assert(sub.last() == v@);
        }
        if has_member(&v.implemented_traits, t) {
            let ghost before = matching.deep_view();
            matching.push(v.ident.clone());
            assert(matching.deep_view() =~= before.push(v.ident@));
        }
    }
    assert(vs.subrange(0, vs.len() as int) =~= vs);
    assert(m@.traits[t as int] == m.traits[t as int]@);
    Function { name, result_path: copy_path(&m.traits[t].path), matching_variants: matching }
}

/// One accessor per capability, in the model's order.
pub fn generate_enum_impl(m: &Model) -> (r: EnumImpl)
    ensures
        function_views(r.functions@) == functions_of(m@),
{
    let mut functions: Vec<Function> = Vec::new();
    for t in 0..m.traits.len()
        invariant
            functions.len() == t,
            forall|j: int|
                0 <= j < t ==> (#[trigger] functions[j])@ == function_of(
                    m@,
                    j as usize,
                    snake_case_of(m@.traits[j].ident),
                ),
    {
        let snake = to_snake_case(&m.traits[t].ident);
        assert(m@.traits[t as int] == m.traits[t as int]@);
        functions.push(function_for_trait(m, t, &snake));
    }
    let r = EnumImpl { functions };
    assert(function_views(r.functions@) =~= functions_of(m@));
    r
}

/// One rung of the specialization scaffold per variant, in the model's order.
pub fn generate_autoref_specializers(m: &Model) -> (r: Vec<AutorefSpecializer>)
    requires
        m@.wf(),
    ensures
        r@.map_values(|s: AutorefSpecializer| s@) == m@.enum_variants.map_values(
            |v: VariantView| specializer_of(m@.traits, v),
        ),
{
    let ghost vs = m@.enum_variants;
    let ghost ts = m@.traits;
    let mut r: Vec<AutorefSpecializer> = Vec::new();
    for k in 0..m.enum_variants.len()
        invariant
            vs == m@.enum_variants,
            ts == m@.traits,
            vs.len() == m.enum_variants.len(),
            m@.wf(),
            r.len() == k,
            forall|j: int| 0 <= j < k ==> (#[trigger] r[j])@ == specializer_of(ts, vs[j]),
    {
        let v = &m.enum_variants[k];
        proof {
            lemma_variant_view(m, k as int);
            assert forall|i: int| 0 <= i < v.implemented_traits.len() implies v.implemented_traits[i] < m.traits.len() by {
                assert(vs[k as int].implemented_traits[i] == v.implemented_traits[i]);
            }
        }
        let mut tag = v.ident.clone();
        tag.append("Tag");
        let mut match_ident = v.ident.clone();
        match_ident.append("Match");
        let constraint = enum_variant_to_constraint(m, v);
        r.push(
            AutorefSpecializer {
                tag,
                match_ident,
                deref_count: v.implemented_traits.len(),
                variant: v.ident.clone(),
                constraint,
            },
        );
    }
    assert(r@.map_values(|s: AutorefSpecializer| s@) =~= vs.map_values(|v: VariantView| specializer_of(ts, v)));
    r
}

/// The names of the conversion macro's two steps, from the snake-case form of
/// the type's name: `into_<snake>` and `into_<snake>_tag`.
pub fn conversion_names(snake: &String) -> (r: (String, String))
    ensures
        r.0@ == "into_"@ + snake@,
        r.1@ == "into_"@ + snake@ + "_tag"@,
{
    let mut into = String::from_str("into_");
    into.append(snake.as_str());
    let mut into_tag = String::from_str("into_");
    into_tag.append(snake.as_str());
    into_tag.append("_tag");
    (into, into_tag)
}

/// Lowers a model to what the emitter renders.
pub fn lower(m: &Model) -> (r: Ir)
    requires
        m@.wf(),
        m.traits.len() < usize::MAX,
    ensures
        r@ == ir_of(m@),
{
    let trait_aggregates = generate_trait_aggregates(m);
    let enum_def = generate_enum(m);
    let enum_impl = generate_enum_impl(m);
    let autoref_specializers = generate_autoref_specializers(m);
    let snake = to_snake_case(&m.enum_ident);
    let (into, into_tag) = conversion_names(&snake);
    Ir {
        trait_aggregates,
        enum_def,
        enum_impl,
        autoref_specializers,
        wrap_ident: m.wrap_ident.clone(),
        wrap_derefs: m.traits.len() + 1,
        into,
        into_tag,
    }
}

pub open spec fn has_trait(t: usize) -> spec_fn(VariantView) -> bool {
    |v: VariantView| v.implemented_traits.contains(t)
}

pub open spec fn ident_of() -> spec_fn(VariantView) -> Seq<char> {
    |v: VariantView| v.ident
}

/// The accessor's list is the variants that have the capability, kept in order.
pub proof fn lemma_matching_is_filter(vs: Seq<VariantView>, t: usize)
    ensures
        matching_of(vs, t) == vs.filter(has_trait(t)).map_values(ident_of()),
    decreases vs.len(),
{
    reveal(Seq::filter);
    if vs.len() > 0 {
        lemma_matching_is_filter(vs.drop_last(), t);
        let f = vs.drop_last().filter(has_trait(t));
        if has_trait(t)(vs.last()) {
            assert(f.push(vs.last()).map_values(ident_of()) =~= f.map_values(ident_of()).push(vs.last().ident));
        }
    }
}

/// The combination of all `n` capabilities.
pub open spec fn full_combination(n: nat) -> Seq<usize> {
    Seq::new(n, |i: int| i as usize)
}

proof fn lemma_listed(vs: Seq<VariantView>, t: usize, k: int)
    requires
        0 <= k < vs.len(),
        vs[k].implemented_traits.contains(t),
    ensures
        matching_of(vs, t).contains(vs[k].ident),
{
    lemma_matching_is_filter(vs, t);
    let f = vs.filter(has_trait(t));
    assert(vs.contains(vs[k]));
    assert(has_trait(t)(vs[k]));
    vs.lemma_filter_contains_rev(has_trait(t), vs[k]);
    let i = choose|i: int| 0 <= i < f.len() && f[i] == vs[k];
    assert(f.map_values(ident_of())[i] == vs[k].ident);
}

/// Accessor law: the accessor of each capability lists exactly the variants that
/// have it, in the model's order; among them are the variant of the capability
/// alone and the variant of all capabilities.
pub proof fn lemma_accessor_lists(a: AstView, m: ModelView, t: usize)
    requires
        is_model_of(a, m),
        m.traits.len() <= usize::MAX,
        t < m.traits.len(),
    ensures
        matching_of(m.enum_variants, t) == m.enum_variants.filter(has_trait(t)).map_values(ident_of()),
        exists|k: int|
            0 <= k < m.enum_variants.len() && m.enum_variants[k].implemented_traits == seq![t]
                && matching_of(m.enum_variants, t).contains(m.enum_variants[k].ident),
        exists|k: int|
            0 <= k < m.enum_variants.len() && m.enum_variants[k].implemented_traits == full_combination(
                m.traits.len() as nat,
            ) && matching_of(m.enum_variants, t).contains(m.enum_variants[k].ident),
{
    let vs = m.enum_variants;
    let n = m.traits.len() as nat;
    let ms = variant_members(vs);
    lemma_matching_is_filter(vs, t);
    let single = seq![t];
    assert(is_combination(single, n));
    let k1 = choose|k: int| 0 <= k < ms.len() && ms[k] == single;
    assert(vs[k1].implemented_traits == single);
    assert(single[0] == t);
    lemma_listed(vs, t, k1);
    let full = full_combination(n);
    assert(is_combination(full, n));
    let k2 = choose|k: int| 0 <= k < ms.len() && ms[k] == full;
    assert(vs[k2].implemented_traits == full);
    assert(full[t as int] == t);
    lemma_listed(vs, t, k2);
}

pub open spec fn has_several(v: VariantView) -> bool {
    v.implemented_traits.len() > 1
}

/// The members of the variants with at most one member, in order.
pub open spec fn small_of(ms: Seq<Seq<usize>>) -> Seq<Seq<usize>>
    decreases ms.len(),
{
    if ms.len() == 0 {
        Seq::empty()
    } else {
        let rest = small_of(ms.drop_last());
        if ms.last().len() <= 1 {
            rest.push(ms.last())
        } else {
            rest
        }
    }
}

proof fn lemma_split_count(ts: Seq<TraitView>, vs: Seq<VariantView>)
    ensures
        aggregates_of(ts, vs).len() + small_of(variant_members(vs)).len() == vs.len(),
        forall|x: Seq<usize>| #[trigger] small_of(variant_members(vs)).contains(x) <==> (variant_members(vs).contains(x) && x.len() <= 1),
        variant_members(vs).no_duplicates() ==> small_of(variant_members(vs)).no_duplicates(),
    decreases vs.len(),
{
    if vs.len() > 0 {
        let ms = variant_members(vs);
        let ms0 = variant_members(vs.drop_last());
        assert(ms0 =~= ms.drop_last());
        lemma_split_count(ts, vs.drop_last());
        let rest = small_of(ms0);
        let last = ms.last();
        assert(last == vs.last().implemented_traits);
        assert(small_of(ms) == if last.len() <= 1 { rest.push(last) } else { rest });
        assert forall|x: Seq<usize>| #[trigger] small_of(ms).contains(x) <==> (ms.contains(x) && x.len() <= 1) by {
            if ms.contains(x) && x.len() <= 1 {
                let i = choose|i: int| 0 <= i < ms.len() && ms[i] == x;
                if i < ms.len() - 1 {
                    assert(ms0[i] == x);
                    assert(ms0.contains(x));
                    assert(rest.contains(x));
                    let j = choose|j: int| 0 <= j < rest.len() && rest[j] == x;
                    assert(small_of(ms)[j] == x);
                } else {
                    assert(small_of(ms)[rest.len() as int] == x);
                }
            }
            if small_of(ms).contains(x) {
                let i = choose|i: int| 0 <= i < small_of(ms).len() && small_of(ms)[i] == x;
                if i < rest.len() {
                    assert(rest[i] == x);
                    assert(rest.contains(x));
                    assert(ms0.contains(x));
                    let j = choose|j: int| 0 <= j < ms0.len() && ms0[j] == x;
                    assert(ms[j] == x);
                } else {
                    assert(ms[ms.len() - 1] == x);
                }
            }
        }
        if ms.no_duplicates() {
            assert(ms0.no_duplicates()) by {
                assert forall|i: int, j: int| 0 <= i < ms0.len() && 0 <= j < ms0.len() && i != j implies ms0[i] != ms0[j] by {
                    assert(ms[i] == ms0[i] && ms[j] == ms0[j]);
                }
            }
            if last.len() <= 1 {
                assert(!rest.contains(last)) by {
                    if rest.contains(last) {
                        assert(ms0.contains(last));
                        let j = choose|j: int| 0 <= j < ms0.len() && ms0[j] == last;
                        assert(ms[j] == ms[ms.len() - 1]);
                    }
                }
                assert forall|i: int, j: int| 0 <= i < small_of(ms).len() && 0 <= j < small_of(ms).len() && i != j
                    implies small_of(ms)[i] != small_of(ms)[j] by {
                    if i == rest.len() {
                        assert(rest[j] == small_of(ms)[j]);
                    } else if j == rest.len() {
                        assert(rest[i] == small_of(ms)[i]);
                    }
                }
            }
        }
    }
}

/// The combinations with at most one of `n` members: the empty one, then one per capability.
pub open spec fn small_combinations(n: nat) -> Seq<Seq<usize>> {
    seq![Seq::<usize>::empty()] + Seq::new(n, |i: int| seq![i as usize])
}

/// Aggregate law: an aggregate trait is made for each variant with more than one
/// member and for no other, in order; with `n` capabilities there are
/// `2^n - n - 1` of them.
pub proof fn lemma_aggregate_count(a: AstView, m: ModelView)
    requires
        is_model_of(a, m),
        m.traits.len() < usize::MAX,
    ensures
        aggregates_of(m.traits, m.enum_variants) == m.enum_variants.filter(|v: VariantView| has_several(v)).map_values(
            |v: VariantView| aggregate_of(m.traits, v),
        ),
        aggregates_of(m.traits, m.enum_variants).len() == pow2(m.traits.len() as nat) - m.traits.len() - 1,
{
    let vs = m.enum_variants;
    let ts = m.traits;
    let n = ts.len() as nat;
    let ms = variant_members(vs);
    lemma_aggregates_is_filter(ts, vs);
    lemma_split_count(ts, vs);
    assert(ms.no_duplicates());
    let sm = small_of(ms);
    let l = small_combinations(n);
    assert(l.no_duplicates()) by {
        assert forall|i: int, j: int| 0 <= i < l.len() && 0 <= j < l.len() && i != j implies l[i] != l[j] by {
            if i > 0 && j > 0 {
                assert(l[i][0] == (i - 1) as usize);
                assert(l[j][0] == (j - 1) as usize);
            } else if i == 0 {
                assert(l[j].len() == 1);
            } else {
                assert(l[i].len() == 1);
            }
        }
    }
    assert(sm.to_set() =~= l.to_set()) by {
        assert forall|x: Seq<usize>| sm.contains(x) <==> l.contains(x) by {
            if sm.contains(x) {
                assert(ms.contains(x) && x.len() <= 1);
                let k = choose|k: int| 0 <= k < ms.len() && ms[k] == x;
                assert(is_combination(ms[k], n));
                if x.len() == 0 {
                    assert(x =~= Seq::<usize>::empty());
                    assert(l[0] == x);
                } else {
                    assert(x[0] < n);
                    assert(x =~= seq![x[0]]);
                    assert(l[x[0] as int + 1] == x);
                }
            }
            if l.contains(x) {
                let i = choose|i: int| 0 <= i < l.len() && l[i] == x;
                assert(is_combination(x, n));
                let k = choose|k: int| 0 <= k < ms.len() && ms[k] == x;
                assert(ms.contains(x));
            }
        }
    }
    sm.unique_seq_to_set();
    l.unique_seq_to_set();
    lemma_pow2_monotonic(0, n);
}

proof fn lemma_aggregates_is_filter(ts: Seq<TraitView>, vs: Seq<VariantView>)
    ensures
        aggregates_of(ts, vs) == vs.filter(|v: VariantView| has_several(v)).map_values(
            |v: VariantView| aggregate_of(ts, v),
        ),
    decreases vs.len(),
{
    reveal(Seq::filter);
    if vs.len() > 0 {
        lemma_aggregates_is_filter(ts, vs.drop_last());
        let f = vs.drop_last().filter(|v: VariantView| has_several(v));
        assert(vs.filter(|v: VariantView| has_several(v)) == if has_several(vs.last()) {
            f.push(vs.last())
        } else {
            f
        });
        if has_several(vs.last()) {
            assert(f.push(vs.last()).map_values(|v: VariantView| aggregate_of(ts, v)) =~= f.map_values(
                |v: VariantView| aggregate_of(ts, v),
            ).push(aggregate_of(ts, vs.last())));
        }
    }
}

/// Determinism law of the whole pipeline: two runs on one input give one
/// intermediate representation.
pub proof fn lemma_pipeline_deterministic(a: AstView, m1: ModelView, m2: ModelView, ir1: IrView, ir2: IrView)
    requires
        a.paths.len() <= usize::MAX,
        is_model_of(a, m1),
        is_model_of(a, m2),
        ir1 == ir_of(m1),
        ir2 == ir_of(m2),
    ensures
        ir1 == ir2,
{
    lemma_model_deterministic(a, m1, m2);
}

} // verus!
