//! The power set of a capability list, and its ranking by specificity.
use vstd::prelude::*;
use crate::order::{precedes, chars_lt, indices_lt, codes, lemma_lex_total, lemma_codes_injective};

verus! {

pub open spec fn pow2(n: nat) -> nat
    decreases n,
{
    if n == 0 {
        1
    } else {
        2 * pow2((n - 1) as nat)
    }
}

/// `s` picks a subset of `0..n`: strictly increasing positions below `n`.
pub open spec fn is_combination(s: Seq<usize>, n: nat) -> bool {
    &&& forall|i: int, j: int| 0 <= i < j < s.len() ==> s[i] < s[j]
    &&& forall|i: int| 0 <= i < s.len() ==> s[i] < n
}

/// Every subset of `0..n`, in the order of the binary numbers below `2^n`
/// (position `j` stands for bit `j`).
pub open spec fn power_seq(n: nat) -> Seq<Seq<usize>>
    decreases n,
{
    if n == 0 {
        seq![Seq::<usize>::empty()]
    } else {
        let p = power_seq((n - 1) as nat);
        p + p.map_values(|s: Seq<usize>| s.push((n - 1) as usize))
    }
}

pub proof fn lemma_pow2_monotonic(a: nat, b: nat)
    requires
        a <= b,
    ensures
        pow2(a) <= pow2(b),
        pow2(a) >= 1,
    decreases b,
{
    if b > 0 {
        if a < b {
            lemma_pow2_monotonic(a, (b - 1) as nat);
        } else {
            lemma_pow2_monotonic((a - 1) as nat, (b - 1) as nat);
        }
    }
}

/// The enumeration has `2^n` entries, each a subset of `0..n`.
pub proof fn lemma_power_seq_shape(n: nat)
    requires
        n <= usize::MAX,
    ensures
        power_seq(n).len() == pow2(n),
        forall|k: int| 0 <= k < power_seq(n).len() ==> is_combination(#[trigger] power_seq(n)[k], n),
    decreases n,
{
    if n > 0 {
        let m = (n - 1) as nat;
        lemma_power_seq_shape(m);
        let p = power_seq(m);
        assert forall|k: int| 0 <= k < power_seq(n).len() implies is_combination(
            #[trigger] power_seq(n)[k],
            n,
        ) by {
            if k >= p.len() {
                let s = p[k - p.len()];
                assert(is_combination(s, m));
                assert(power_seq(n)[k] == s.push(m as usize));
            } else {
                assert(power_seq(n)[k] == p[k]);
                assert(is_combination(p[k], m));
            }
        }
    }
}

/// Every subset of `0..n` occurs in the enumeration.
pub proof fn lemma_power_seq_complete(n: nat, s: Seq<usize>)
    requires
        n <= usize::MAX,
        is_combination(s, n),
    ensures
        exists|k: int| 0 <= k < power_seq(n).len() && power_seq(n)[k] == s,
    decreases n,
{
    if n == 0 {
        if s.len() > 0 {
            assert(s[0] < 0);
        }
        assert(s =~= Seq::<usize>::empty());
        assert(power_seq(n)[0] == s);
    } else {
        let m = (n - 1) as nat;
        let p = power_seq(m);
        lemma_power_seq_shape(m);
        if s.len() > 0 && s.last() == m {
            let t = s.drop_last();
            assert(is_combination(t, m)) by {
                assert forall|i: int| 0 <= i < t.len() implies t[i] < m by {
                    assert(s[i] < s[s.len() - 1]);
                }
            }
            lemma_power_seq_complete(m, t);
            let j = choose|j: int| 0 <= j < p.len() && p[j] == t;
            assert(t.push(m as usize) =~= s);
            assert(power_seq(n)[p.len() + j] == s);
        } else {
            assert(is_combination(s, m)) by {
                assert forall|i: int| 0 <= i < s.len() implies s[i] < m by {
                    if s[i] == m {
                        if i < s.len() - 1 {
                            assert(s[i] < s[s.len() - 1]);
                        }
                    }
                }
            }
            lemma_power_seq_complete(m, s);
            let j = choose|j: int| 0 <= j < p.len() && p[j] == s;
            assert(power_seq(n)[j] == s);
        }
    }
}

/// No subset occurs twice in the enumeration.
pub proof fn lemma_power_seq_distinct(n: nat)
    requires
        n <= usize::MAX,
    ensures
        forall|a: int, b: int|
            0 <= a < power_seq(n).len() && 0 <= b < power_seq(n).len() && a != b ==> power_seq(n)[a]
                != power_seq(n)[b],
    decreases n,
{
    if n > 0 {
        let m = (n - 1) as nat;
        let p = power_seq(m);
        lemma_power_seq_distinct(m);
        lemma_power_seq_shape(m);
        let ps = power_seq(n);
        assert forall|a: int, b: int|
            0 <= a < ps.len() && 0 <= b < ps.len() && a != b implies ps[a] != ps[b] by {
            if a >= p.len() && b >= p.len() {
                let sa = p[a - p.len()];
                let sb = p[b - p.len()];
                if ps[a] == ps[b] {
                    assert(sa =~= ps[a].drop_last());
                    assert(sb =~= ps[b].drop_last());
                }
            } else if a >= p.len() {
                let sa = p[a - p.len()];
                assert(ps[a].last() == m);
                assert(is_combination(p[b], m));
                if ps[a] == ps[b] {
                    assert(ps[b][ps[b].len() - 1] < m);
                }
            } else if b >= p.len() {
                assert(ps[b].last() == m);
                assert(is_combination(p[a], m));
                if ps[a] == ps[b] {
                    assert(ps[a][ps[a].len() - 1] < m);
                }
            }
        }
    }
}

/// A copy of a list of positions.
pub fn copy_indices(v: &Vec<usize>) -> (r: Vec<usize>)
    ensures
        r@ == v@,
{
    let mut r: Vec<usize> = Vec::new();
    for i in 0..v.len()
        invariant
            r@ == v@.subrange(0, i as int),
    {
        r.push(v[i]);
        assert(r@ =~= v@.subrange(0, i + 1));
    }
    assert(r@ =~= v@);
    r
}

/// Every subset of `0..n`, by doubling: the subsets of `0..k+1` are those of
/// `0..k`, followed by the same with `k` added.
pub fn power_set(n: usize) -> (r: Vec<Vec<usize>>)
    requires
        pow2(n as nat) <= usize::MAX,
    ensures
        r.len() == pow2(n as nat),
        forall|k: int| 0 <= k < r.len() ==> (#[trigger] r[k])@ == power_seq(n as nat)[k],
{
    let mut r: Vec<Vec<usize>> = Vec::new();
    r.push(Vec::new());
    assert(r@.len() == power_seq(0).len());
    let mut k: usize = 0;
    while k < n
        invariant
            k <= n,
            pow2(n as nat) <= usize::MAX,
            r.len() == pow2(k as nat),
            r.len() == power_seq(k as nat).len(),
            forall|t: int| 0 <= t < r.len() ==> (#[trigger] r[t])@ == power_seq(k as nat)[t],
        decreases n - k,
    {
        proof {
            lemma_pow2_monotonic((k + 1) as nat, n as nat);
            lemma_power_seq_shape(k as nat);
        }
        let len = r.len();
        let ghost p = power_seq(k as nat);
        let ghost q = power_seq((k + 1) as nat);
        for i in 0..len
            invariant
                len == p.len(),
                len * 2 <= usize::MAX,
                r.len() == len + i,
                q == p + p.map_values(|s: Seq<usize>| s.push(k)),
                forall|t: int| 0 <= t < r.len() ==> (#[trigger] r[t])@ == q[t],
        {
            let mut s = copy_indices(&r[i]);
            s.push(k);
            r.push(s);
        }
        k = k + 1;
    }
    r
}

/// `p` is a permutation of `0..n`, and `q` its inverse.
pub open spec fn is_permutation(p: Seq<int>, q: Seq<int>, n: nat) -> bool {
    &&& p.len() == n
    &&& q.len() == n
    &&& forall|k: int| 0 <= k < n ==> 0 <= #[trigger] p[k] < n && q[p[k]] == k
    &&& forall|j: int| 0 <= j < n ==> 0 <= #[trigger] q[j] < n && p[q[j]] == j
}

/// A combination under construction: its members (positions in the capability
/// list), its name, and the name's characters, kept for comparison.
pub struct Ranked {
    pub members: Vec<usize>,
    pub name: String,
    pub chars: Vec<char>,
}

impl Ranked {
    pub open spec fn wf(&self) -> bool {
        self.chars@ == self.name@
    }

    pub open spec fn before(&self, other: &Ranked) -> bool {
        precedes(self.members@, self.name@, other.members@, other.name@)
    }

    pub fn empty() -> (r: Ranked)
        ensures
            r.wf(),
    {
        Ranked { members: Vec::new(), name: String::new(), chars: Vec::new() }
    }

    /// An entry named `name`.
    pub fn new(members: Vec<usize>, name: String) -> (r: Ranked)
        ensures
            r.wf(),
            r.members == members,
            r.name == name,
    {
        let chars = chars_of(&name);
        Ranked { members, name, chars }
    }
}

/// The characters of a string.
pub fn chars_of(s: &String) -> (r: Vec<char>)
    ensures
        r@ == s@,
{
    let t = s.as_str();
    let n = t.unicode_len();
    let mut r: Vec<char> = Vec::new();
    for i in 0..n
        invariant
            n == s@.len(),
            t@ == s@,
            r@ == s@.subrange(0, i as int),
    {
        let c = t.get_char(i);
        r.push(c);
        assert(r@ =~= s@.subrange(0, i + 1));
    }
    assert(r@ =~= s@);
    r
}

/// Whether `a` ranks before `b`.
pub fn ranks_before(a: &Ranked, b: &Ranked) -> (r: bool)
    requires
        a.wf(),
        b.wf(),
    ensures
        r == a.before(b),
{
    let la = a.members.len();
    let lb = b.members.len();
    if la != lb {
        return la > lb;
    }
    if chars_lt(&a.chars, &b.chars) {
        return true;
    }
    if chars_lt(&b.chars, &a.chars) {
        return false;
    }
    proof {
        lemma_lex_total(codes(a.chars@), codes(b.chars@));
        lemma_codes_injective(a.chars@, b.chars@);
    }
    indices_lt(&a.members, &b.members)
}

fn swap_entries(v: &mut Vec<Ranked>, i: usize, j: usize)
    requires
        i < old(v).len(),
        j < old(v).len(),
    ensures
        final(v)@ == old(v)@.update(i as int, old(v)@[j as int]).update(j as int, old(v)@[i as int]),
{
    if i != j {
        let mut tmp = Ranked::empty();
        v.set_and_swap(i, &mut tmp);
        v.set_and_swap(j, &mut tmp);
        v.set_and_swap(i, &mut tmp);
    }
    assert(v@ =~= old(v)@.update(i as int, old(v)@[j as int]).update(j as int, old(v)@[i as int]));
}

/// Sorts by `Ranked::before`, by selection: the result is a permutation of the
/// input in which no entry ranks before an earlier one.
pub fn sort_ranked(v: &mut Vec<Ranked>)
    requires
        forall|k: int| 0 <= k < old(v).len() ==> (#[trigger] old(v)[k]).wf(),
    ensures
        final(v).len() == old(v).len(),
        forall|k: int| 0 <= k < final(v).len() ==> (#[trigger] final(v)[k]).wf(),
        forall|a: int, b: int|
            #![trigger final(v)[a], final(v)[b]]
            0 <= a < b < final(v).len() ==> !final(v)[b].before(&final(v)[a]),
        exists|p: Seq<int>, q: Seq<int>|
            is_permutation(p, q, old(v).len() as nat) && forall|k: int|
                0 <= k < old(v).len() ==> #[trigger] final(v)[k] == old(v)[p[k]],
{
    let n = v.len();
    let ghost orig = v@;
    let ghost mut p: Seq<int> = Seq::new(n as nat, |k: int| k);
    let ghost mut q: Seq<int> = Seq::new(n as nat, |k: int| k);
    for i in 0..n
        invariant
            v.len() == n,
            orig.len() == n,
            forall|k: int| 0 <= k < n ==> (#[trigger] v[k]).wf(),
            forall|a: int, b: int| #![trigger v[a], v[b]] 0 <= a < b < i ==> !v[b].before(&v[a]),
            forall|a: int, b: int|
                #![trigger v[a], v[b]]
                0 <= a < i <= b < n ==> !v[b].before(&v[a]),
            p.len() == n,
            q.len() == n,
            forall|k: int|
                0 <= k < n ==> 0 <= #[trigger] p[k] < n && q[p[k]] == k,
            forall|k: int|
                0 <= k < n ==> 0 <= #[trigger] q[k] < n && p[q[k]] == k,
            forall|k: int| 0 <= k < n ==> #[trigger] v[k] == orig[p[k]],
    {
        let mut m = i;
        let mut j = i + 1;
        proof {
            crate::order::lemma_precedes_irreflexive(v[i as int].members@, v[i as int].name@);
        }
        while j < n
            invariant
                v.len() == n,
                forall|k: int| 0 <= k < n ==> (#[trigger] v[k]).wf(),
                i <= m < n,
                i < j <= n,
                forall|t: int| i <= t < j ==> !(#[trigger] v[t]).before(&v[m as int]),
            decreases n - j,
        {
            if ranks_before(&v[j], &v[m]) {
                proof {
                    assert forall|t: int| i <= t < j implies !(#[trigger] v[t]).before(&v[j as int]) by {
                        if v[t].before(&v[j as int]) {
                            crate::order::lemma_precedes_transitive(
                                v[t].members@, v[t].name@,
                                v[j as int].members@, v[j as int].name@,
                                v[m as int].members@, v[m as int].name@,
                            );
                        }
                    }
                    crate::order::lemma_precedes_irreflexive(v[j as int].members@, v[j as int].name@);
                }
                m = j;
            }
            j = j + 1;
        }
        let ghost w = v@;
        swap_entries(v, i, m);
        proof {
            let pi = p[i as int];
            let pm = p[m as int];
            p = p.update(i as int, pm).update(m as int, pi);
            q = q.update(pi, m as int).update(pm, i as int);
            assert forall|a: int, b: int| #![trigger v[a], v[b]] 0 <= a < b < i + 1 implies !v[b].before(&v[a]) by {
                if b == i {
                    assert(v[b] == w[m as int]);
                }
            }
            assert forall|a: int, b: int|
                #![trigger v[a], v[b]]
                0 <= a < i + 1 <= b < n implies !v[b].before(&v[a]) by {
                if a == i {
                    if b == m {
                        assert(v[b] == w[i as int]);
                    } else {
                        assert(v[b] == w[b]);
                    }
                } else {
                    if b == m {
                        assert(v[b] == w[i as int]);
                    } else {
                        assert(v[b] == w[b]);
                    }
                }
            }
        }
    }
    assert(is_permutation(p, q, n as nat));
}

/// The views of a list of strings.
pub open spec fn views(s: Seq<String>) -> Seq<Seq<char>> {
    s.map_values(|x: String| x@)
}

/// The names at `members`, concatenated in order.
pub open spec fn concat_names(idents: Seq<Seq<char>>, members: Seq<usize>) -> Seq<char>
    decreases members.len(),
{
    if members.len() == 0 {
        Seq::empty()
    } else {
        concat_names(idents, members.drop_last()) + idents[members.last() as int]
    }
}

/// The name of a combination: `prefix`, then its members' names in order, or
/// `None` for the empty combination.
pub open spec fn combination_name(prefix: Seq<char>, idents: Seq<Seq<char>>, members: Seq<usize>) -> Seq<char> {
    if members.len() == 0 {
        prefix + "None"@
    } else {
        prefix + concat_names(idents, members)
    }
}

/// `ms` holds every subset of `0..n` once, each before all those that are less
/// specific under the naming given by `prefix` and `idents`.
pub open spec fn is_ordering(ms: Seq<Seq<usize>>, n: nat, prefix: Seq<char>, idents: Seq<Seq<char>>) -> bool {
    &&& ms.len() == pow2(n)
    &&& forall|k: int| 0 <= k < ms.len() ==> is_combination(#[trigger] ms[k], n)
    &&& forall|s: Seq<usize>| is_combination(s, n) ==> exists|k: int| 0 <= k < ms.len() && ms[k] == s
    &&& forall|a: int, b: int|
        #![trigger ms[a], ms[b]]
        0 <= a < ms.len() && 0 <= b < ms.len() && a != b ==> ms[a] != ms[b]
    &&& forall|a: int, b: int|
        #![trigger ms[a], ms[b]]
        0 <= a < b < ms.len() ==> precedes(
            ms[a],
            combination_name(prefix, idents, ms[a]),
            ms[b],
            combination_name(prefix, idents, ms[b]),
        )
}

pub open spec fn members_of(r: Seq<Ranked>) -> Seq<Seq<usize>> {
    r.map_values(|e: Ranked| e.members@)
}

/// The name of the combination `members`.
pub fn combination_label(prefix: &String, idents: &Vec<String>, members: &Vec<usize>) -> (r: String)
    requires
        forall|i: int| 0 <= i < members.len() ==> members[i] < idents.len(),
    ensures
        r@ == combination_name(prefix@, views(idents@), members@),
{
    let mut name = prefix.clone();
    if members.len() == 0 {
        name.append("None");
        return name;
    }
    let ghost ids = views(idents@);
    for i in 0..members.len()
        invariant
            forall|i: int| 0 <= i < members.len() ==> members[i] < idents.len(),
            ids == views(idents@),
            name@ == prefix@ + concat_names(ids, members@.subrange(0, i as int)),
    {
        let ghost before = name@;
        name.append(idents[members[i]].as_str());
        proof {
            let sub = members@.subrange(0, i + 1);
            assert(sub.drop_last() =~= members@.subrange(0, i as int));
            assert(ids[members[i as int] as int] == idents[members[i as int] as int]@);
            assert(concat_names(ids, sub) == concat_names(ids, members@.subrange(0, i as int)) + ids[members[i as int] as int]);
            assert(name@ =~= prefix@ + concat_names(ids, sub));
        }
    }
    assert(members@.subrange(0, members.len() as int) =~= members@);
    name
}

/// Every combination of `idents`, named after `prefix`, most specific first.
pub fn rank_combinations(prefix: &String, idents: &Vec<String>) -> (r: Vec<Ranked>)
    requires
        pow2(idents.len() as nat) <= usize::MAX,
    ensures
        forall|k: int| 0 <= k < r.len() ==> (#[trigger] r[k]).wf() && r[k].name@ == combination_name(
            prefix@,
            views(idents@),
            r[k].members@,
        ),
        is_ordering(members_of(r@), idents.len() as nat, prefix@, views(idents@)),
{
    let n = idents.len();
    let sets = power_set(n);
    let ghost ps = power_seq(n as nat);
    let ghost ids = views(idents@);
    proof {
        lemma_power_seq_shape(n as nat);
        lemma_power_seq_distinct(n as nat);
    }
    let mut entries: Vec<Ranked> = Vec::new();
    for k in 0..sets.len()
        invariant
            n == idents.len(),
            ids == views(idents@),
            sets.len() == ps.len(),
            ps == power_seq(n as nat),
            forall|t: int| 0 <= t < sets.len() ==> (#[trigger] sets[t])@ == ps[t],
            forall|t: int| 0 <= t < ps.len() ==> is_combination(#[trigger] ps[t], n as nat),
            entries.len() == k,
            forall|t: int|
                0 <= t < k ==> (#[trigger] entries[t]).wf() && entries[t].members@ == ps[t]
                    && entries[t].name@ == combination_name(prefix@, ids, entries[t].members@),
    {
        let members = copy_indices(&sets[k]);
        assert(is_combination(ps[k as int], n as nat));
        let name = combination_label(prefix, idents, &members);
        entries.push(Ranked::new(members, name));
    }
    let ghost orig = entries@;
    sort_ranked(&mut entries);
    proof {
        let (p, q) = choose|p: Seq<int>, q: Seq<int>|
            is_permutation(p, q, orig.len() as nat) && forall|k: int|
                0 <= k < orig.len() ==> #[trigger] entries[k] == orig[p[k]];
        let ms = members_of(entries@);
        assert forall|k: int| 0 <= k < ms.len() implies ms[k] == ps[p[k]] by {
            assert(entries[k] == orig[p[k]]);
        }
        assert forall|s: Seq<usize>| is_combination(s, n as nat) implies exists|k: int|
            0 <= k < ms.len() && ms[k] == s by {
            lemma_power_seq_complete(n as nat, s);
            let j = choose|j: int| 0 <= j < ps.len() && ps[j] == s;
            assert(ms[q[j]] == ps[p[q[j]]]);
        }
        assert forall|a: int, b: int|
            #![trigger ms[a], ms[b]]
            0 <= a < ms.len() && 0 <= b < ms.len() && a != b implies ms[a] != ms[b] by {
            assert(q[p[a]] == a && q[p[b]] == b);
        }
        assert forall|a: int, b: int|
            #![trigger ms[a], ms[b]]
            0 <= a < b < ms.len() implies precedes(
                ms[a],
                combination_name(prefix@, ids, ms[a]),
                ms[b],
                combination_name(prefix@, ids, ms[b]),
            ) by {
            assert(entries[a] == orig[p[a]]);
            assert(entries[b] == orig[p[b]]);
            assert(ms[a] != ms[b]);
            crate::order::lemma_precedes_total(entries[a].members@, entries[a].name@, entries[b].members@, entries[b].name@);
        }
    }
    entries
}

/// Each entry ranks before every later one.
pub open spec fn strictly_ranked(ks: Seq<(Seq<usize>, Seq<char>)>) -> bool {
    forall|a: int, b: int|
        #![trigger ks[a], ks[b]]
        0 <= a < b < ks.len() ==> precedes(ks[a].0, ks[a].1, ks[b].0, ks[b].1)
}

/// Each entry of `a` is found in `b`, at `f`.
pub open spec fn found_at(a: Seq<(Seq<usize>, Seq<char>)>, b: Seq<(Seq<usize>, Seq<char>)>, f: Seq<int>) -> bool {
    &&& f.len() == a.len()
    &&& forall|i: int| 0 <= i < a.len() ==> 0 <= #[trigger] f[i] < b.len() && b[f[i]] == a[i]
}

proof fn lemma_ranked_agree_below(
    a: Seq<(Seq<usize>, Seq<char>)>,
    b: Seq<(Seq<usize>, Seq<char>)>,
    f: Seq<int>,
    g: Seq<int>,
    k: int,
)
    requires
        a.len() == b.len(),
        0 <= k <= a.len(),
        strictly_ranked(a),
        strictly_ranked(b),
        found_at(a, b, f),
        found_at(b, a, g),
    ensures
        forall|t: int| 0 <= t < k ==> a[t] == b[t],
    decreases k,
{
    if k > 0 {
        let t = k - 1;
        lemma_ranked_agree_below(a, b, f, g, t);
        let x = a[t];
        let y = b[t];
        let j = f[t];
        let i = g[t];
        if j < t {
            assert(a[j] == b[j]);
            assert(precedes(a[j].0, a[j].1, a[t].0, a[t].1));
            crate::order::lemma_precedes_irreflexive(x.0, x.1);
        }
        if i < t {
            assert(a[i] == b[i]);
            assert(precedes(b[i].0, b[i].1, b[t].0, b[t].1));
            crate::order::lemma_precedes_irreflexive(y.0, y.1);
        }
        if x != y {
            assert(j != t && i != t);
            assert(precedes(b[t].0, b[t].1, b[j].0, b[j].1));
            assert(precedes(a[t].0, a[t].1, a[i].0, a[i].1));
            crate::order::lemma_precedes_asymmetric(y.0, y.1, x.0, x.1);
        }
    }
}

/// Two strictly ranked sequences of the same entries are equal: the ranking
/// leaves no choice.
pub proof fn lemma_ranked_unique(
    a: Seq<(Seq<usize>, Seq<char>)>,
    b: Seq<(Seq<usize>, Seq<char>)>,
    f: Seq<int>,
    g: Seq<int>,
)
    requires
        a.len() == b.len(),
        strictly_ranked(a),
        strictly_ranked(b),
        found_at(a, b, f),
        found_at(b, a, g),
    ensures
        a == b,
{
    lemma_ranked_agree_below(a, b, f, g, a.len() as int);
    assert(a =~= b);
}

} // verus!
