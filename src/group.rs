//! Grouping of values (devices, alternate functions, pins, roles) by the exact set
//! of microcontroller models that support them: two values share a group if and
//! only if their supports are equal.

use vstd::prelude::*;
use crate::order::{clone_strs, contains_str, str_eq, strs};
use crate::tree::{has_key, keys_unique, lemma_value_at, value_of, Mcus};

verus! {

/// The set of models that support a value.
pub type Support = Set<Seq<char>>;

/// A value with the models of one place where it occurs.
pub struct Tagged {
    pub value: String,
    pub mcus: Vec<String>,
}

impl Tagged {
    pub open spec fn pair(&self) -> (Seq<char>, Mcus) {
        (self.value@, strs(self.mcus@))
    }
}

pub open spec fn tagged_views(v: Seq<Tagged>) -> Seq<(Seq<char>, Mcus)> {
    v.map_values(|t: Tagged| t.pair())
}

/// For each value of `items`, the union of the model sets it occurs with.
pub open spec fn collect_spec(items: Seq<(Seq<char>, Mcus)>) -> Map<Seq<char>, Support>
    decreases items.len(),
{
    if items.len() == 0 {
        Map::empty()
    } else {
        let m = collect_spec(items.drop_last());
        let (v, ms) = items.last();
        if m.contains_key(v) {
            m.insert(v, m[v].union(ms.to_set()))
        } else {
            m.insert(v, ms.to_set())
        }
    }
}

/// The support of each value of a duplicate-free list of tagged values.
pub open spec fn tag_map<K>(s: Seq<(K, Mcus)>) -> Map<K, Support> {
    Map::new(|v: K| has_key(s, v), |v: K| value_of(s, v).to_set())
}

/// Index of the entry of `s` under `k`.
pub open spec fn index_of_key<K>(s: Seq<(K, Mcus)>, k: K) -> int {
    choose|i: int| 0 <= i < s.len() && #[trigger] s[i].0 == k
}

/// `a` followed by the strings of `b` that it lacks, in the order of `b`.
pub open spec fn union_list(a: Mcus, b: Mcus) -> Mcus
    decreases b.len(),
{
    if b.len() == 0 {
        a
    } else {
        let u = union_list(a, b.drop_last());
        if u.contains(b.last()) {
            u
        } else {
            u.push(b.last())
        }
    }
}

/// One item added to a collection: a new value is appended; an existing one
/// gains the models it lacks.
pub open spec fn collect_step(prev: Seq<(Seq<char>, Mcus)>, v: Seq<char>, ms: Mcus) -> Seq<(Seq<char>, Mcus)> {
    if has_key(prev, v) {
        let j = index_of_key(prev, v);
        prev.update(j, (v, union_list(prev[j].1, ms)))
    } else {
        prev.push((v, ms))
    }
}

/// The collection of `items`, value by value in order of first occurrence.
pub open spec fn collect_seq(items: Seq<(Seq<char>, Mcus)>) -> Seq<(Seq<char>, Mcus)>
    decreases items.len(),
{
    if items.len() == 0 {
        Seq::empty()
    } else {
        collect_step(collect_seq(items.drop_last()), items.last().0, items.last().1)
    }
}

/// Index of the group of `gs` whose model list holds the set `k`.
pub open spec fn group_index(gs: Seq<(Mcus, Seq<Seq<char>>)>, k: Support) -> int {
    choose|i: int| 0 <= i < gs.len() && #[trigger] gs[i].0.to_set() == k
}

pub open spec fn has_group(gs: Seq<(Mcus, Seq<Seq<char>>)>, k: Support) -> bool {
    exists|i: int| 0 <= i < gs.len() && #[trigger] gs[i].0.to_set() == k
}

/// One value with its models added to a grouping: to the group of the same set
/// where there is one, else as a new group.
pub open spec fn partition_step(gs: Seq<(Mcus, Seq<Seq<char>>)>, v: Seq<char>, ms: Mcus) -> Seq<(Mcus, Seq<Seq<char>>)> {
    if has_group(gs, ms.to_set()) {
        let j = group_index(gs, ms.to_set());
        gs.update(j, (gs[j].0, gs[j].1.push(v)))
    } else {
        gs.push((ms, seq![v]))
    }
}

/// The grouping of a collection, group by group in order of first occurrence.
pub open spec fn partition_seq(cs: Seq<(Seq<char>, Mcus)>) -> Seq<(Mcus, Seq<Seq<char>>)>
    decreases cs.len(),
{
    if cs.len() == 0 {
        Seq::empty()
    } else {
        partition_step(partition_seq(cs.drop_last()), cs.last().0, cs.last().1)
    }
}

/// One value with its models added without merging: to the group of exactly its
/// own set of models, where the group lacks it, else as a new group.
pub open spec fn bucket_step(gs: Seq<(Mcus, Seq<Seq<char>>)>, v: Seq<char>, ms: Mcus) -> Seq<(Mcus, Seq<Seq<char>>)> {
    if has_group(gs, ms.to_set()) {
        let j = group_index(gs, ms.to_set());
        if gs[j].1.contains(v) {
            gs
        } else {
            gs.update(j, (gs[j].0, gs[j].1.push(v)))
        }
    } else {
        gs.push((ms, seq![v]))
    }
}

/// The items grouped by their own model sets, group by group in order of first
/// occurrence; a value may stand in several groups.
pub open spec fn bucket_seq(items: Seq<(Seq<char>, Mcus)>) -> Seq<(Mcus, Seq<Seq<char>>)>
    decreases items.len(),
{
    if items.len() == 0 {
        Seq::empty()
    } else {
        bucket_step(bucket_seq(items.drop_last()), items.last().0, items.last().1)
    }
}

/// The equivalence classes of `f`: for each support, the values that have it.
pub open spec fn partition_spec(f: Map<Seq<char>, Support>) -> Map<Support, Set<Seq<char>>> {
    Map::new(
        |k: Support| exists|v: Seq<char>| f.contains_key(v) && #[trigger] f[v] == k,
        |k: Support| Set::new(|v: Seq<char>| f.contains_key(v) && f[v] == k),
    )
}

/// The support of each value that a grouping holds: the key of its group.
pub open spec fn members_spec(p: Map<Support, Set<Seq<char>>>) -> Map<Seq<char>, Support> {
    Map::new(
        |v: Seq<char>| exists|k: Support| p.contains_key(k) && #[trigger] p[k].contains(v),
        |v: Seq<char>| choose|k: Support| p.contains_key(k) && #[trigger] p[k].contains(v),
    )
}

/// Grouping is idempotent: the values of a grouping, each with the support of
/// its group, are the values and supports that were grouped, so grouping them
/// again gives the same groups.
pub proof fn lemma_grouping_idempotent(f: Map<Seq<char>, Support>)
    ensures
        members_spec(partition_spec(f)) == f,
        partition_spec(members_spec(partition_spec(f))) == partition_spec(f),
{
    let p = partition_spec(f);
    let g = members_spec(p);
    assert forall|v: Seq<char>| #[trigger] g.contains_key(v) <==> f.contains_key(v) by {
        if f.contains_key(v) {
            assert(p.contains_key(f[v]));
            assert(p[f[v]].contains(v));
        }
    }
    assert forall|v: Seq<char>| g.contains_key(v) implies #[trigger] g[v] == f[v] by {
        let k = choose|k: Support| p.contains_key(k) && #[trigger] p[k].contains(v);
        assert(p[k].contains(v));
    }
    assert(g =~= f);
}


proof fn lemma_index_of_key<K>(es: Seq<(K, Mcus)>, k: K, i: int)
    requires
        keys_unique(es),
        0 <= i < es.len(),
        es[i].0 == k,
    ensures
        index_of_key(es, k) == i,
{
    let j = index_of_key(es, k);
    assert(0 <= j < es.len() && es[j].0 == k);
    if j < i {
        assert(es[j].0 != es[i].0);
    } else if i < j {
        assert(es[i].0 != es[j].0);
    }
}

proof fn lemma_tag_map_push<K>(s: Seq<(K, Mcus)>, v: K, ms: Mcus)
    requires
        keys_unique(s),
        !has_key(s, v),
    ensures
        keys_unique(s.push((v, ms))),
        tag_map(s.push((v, ms))) == tag_map(s).insert(v, ms.to_set()),
{
    let n = s.push((v, ms));
    assert forall|i: int, j: int| 0 <= i < j < n.len() implies #[trigger] n[i].0 != #[trigger] n[j].0 by {
        if j == s.len() {
            assert(s[i].0 != v);
        } else {
            assert(s[i].0 != s[j].0);
        }
    }
    lemma_value_at(n, v, s.len() as int);
    assert forall|u: K| #[trigger] has_key(n, u) <==> has_key(s, u) || u == v by {
        if has_key(s, u) {
            let i = choose|i: int| 0 <= i < s.len() && #[trigger] s[i].0 == u;
            assert(n[i].0 == u);
        }
        if has_key(n, u) && u != v {
            let i = choose|i: int| 0 <= i < n.len() && #[trigger] n[i].0 == u;
            assert(s[i].0 == u);
        }
    }
    assert forall|u: K| has_key(s, u) && u != v implies value_of(n, u) == value_of(s, u) by {
        let i = choose|i: int| 0 <= i < s.len() && #[trigger] s[i].0 == u;
        lemma_value_at(s, u, i);
        lemma_value_at(n, u, i);
    }
    assert(tag_map(n) =~= tag_map(s).insert(v, ms.to_set()));
}

proof fn lemma_tag_map_update<K>(s: Seq<(K, Mcus)>, j: int, ms: Mcus)
    requires
        keys_unique(s),
        0 <= j < s.len(),
    ensures
        keys_unique(s.update(j, (s[j].0, ms))),
        tag_map(s.update(j, (s[j].0, ms))) == tag_map(s).insert(s[j].0, ms.to_set()),
{
    let v = s[j].0;
    let n = s.update(j, (v, ms));
    assert forall|a: int, b: int| 0 <= a < b < n.len() implies #[trigger] n[a].0 != #[trigger] n[b].0 by {
        assert(n[a].0 == s[a].0 && n[b].0 == s[b].0);
    }
    lemma_value_at(n, v, j);
    assert forall|u: K| #[trigger] has_key(n, u) <==> has_key(s, u) by {
        if has_key(s, u) {
            let i = choose|i: int| 0 <= i < s.len() && #[trigger] s[i].0 == u;
            assert(n[i].0 == u);
        }
        if has_key(n, u) {
            let i = choose|i: int| 0 <= i < n.len() && #[trigger] n[i].0 == u;
            assert(s[i].0 == u);
        }
    }
    assert forall|u: K| has_key(s, u) && u != v implies value_of(n, u) == value_of(s, u) by {
        let i = choose|i: int| 0 <= i < s.len() && #[trigger] s[i].0 == u;
        lemma_value_at(s, u, i);
        lemma_value_at(n, u, i);
    }
    assert(tag_map(n) =~= tag_map(s).insert(v, ms.to_set()));
}

/// Adds to `dst` each string of `src` that it lacks.
pub fn union_into(dst: &mut Vec<String>, src: &Vec<String>)
    ensures
        strs(final(dst)@) == union_list(strs(old(dst)@), strs(src@)),
        strs(final(dst)@).to_set() == strs(old(dst)@).to_set().union(strs(src@).to_set()),
{
    let ghost d0 = strs(dst@).to_set();
    let ghost l0 = strs(dst@);
    let mut i: usize = 0;
    assert(strs(src@).take(0) =~= Seq::<Seq<char>>::empty());
    while i < src.len()
        invariant
            i <= src.len(),
            strs(dst@).to_set() == d0.union(strs(src@).take(i as int).to_set()),
            strs(dst@) == union_list(l0, strs(src@).take(i as int)),
        decreases src.len() - i,
    {
        let ghost before = strs(dst@);
        let ghost x = strs(src@)[i as int];
        if !contains_str(dst, src[i].as_str()) {
            dst.push(src[i].clone());
            assert(strs(dst@) =~= before.push(x));
        }
        proof {
            assert(strs(src@).take(i + 1) =~= strs(src@).take(i as int).push(x));
            assert(strs(src@).take(i + 1).drop_last() =~= strs(src@).take(i as int));
            strs(src@).take(i as int).lemma_push_to_set_commute(x);
            before.lemma_push_to_set_commute(x);
            if before.contains(x) {
                assert(before.to_set().insert(x) =~= before.to_set());
            }
            assert(strs(dst@).to_set() =~= d0.union(strs(src@).take(i + 1).to_set()));
        }
        i = i + 1;
    }
    assert(strs(src@).take(src.len() as int) =~= strs(src@));
}

/// The distinct values of `items`, each with the union of the model sets it
/// occurs with.
pub fn collect(items: &Vec<Tagged>) -> (r: Vec<Tagged>)
    ensures
        tagged_views(r@) == collect_seq(tagged_views(items@)),
        keys_unique(tagged_views(r@)),
        tag_map(tagged_views(r@)) == collect_spec(tagged_views(items@)),
{
    let ghost its = tagged_views(items@);
    let mut r: Vec<Tagged> = Vec::new();
    let mut i: usize = 0;
    assert(tag_map(tagged_views(r@)) =~= collect_spec(its.take(0)));
    while i < items.len()
        invariant
            i <= items.len(),
            its == tagged_views(items@),
            tagged_views(r@) == collect_seq(its.take(i as int)),
            keys_unique(tagged_views(r@)),
            tag_map(tagged_views(r@)) == collect_spec(its.take(i as int)),
        decreases items.len() - i,
    {
        let ghost rs = tagged_views(r@);
        proof {
            assert(its.take(i + 1).drop_last() =~= its.take(i as int));
            assert(its.take(i + 1).last() == items@[i as int].pair());
        }
        let it = &items[i];
        let mut j: usize = 0;
        while j < r.len() && !str_eq(r[j].value.as_str(), it.value.as_str())
            invariant
                j <= r.len(),
                rs == tagged_views(r@),
                forall|k: int| 0 <= k < j ==> rs[k].0 != it.value@,
            decreases r.len() - j,
        {
            j = j + 1;
        }
        if j < r.len() {
            let mut ms = clone_strs(&r[j].mcus);
            union_into(&mut ms, &it.mcus);
            proof {
                lemma_value_at(rs, it.value@, j as int);
                lemma_index_of_key(rs, it.value@, j as int);
                lemma_tag_map_update(rs, j as int, strs(ms@));
            }
            let t = Tagged { value: it.value.clone(), mcus: ms };
            r.set(j, t);
            assert(tagged_views(r@) =~= rs.update(j as int, (rs[j as int].0, strs(t.mcus@))));
        } else {
            proof {
                assert(!has_key(rs, it.value@));
                lemma_tag_map_push(rs, it.value@, strs(it.mcus@));
            }
            let t = Tagged { value: it.value.clone(), mcus: clone_strs(&it.mcus) };
            r.push(t);
            assert(tagged_views(r@) =~= rs.push((it.value@, strs(it.mcus@))));
            assert(tag_map(tagged_views(r@)) =~= collect_spec(its.take(i + 1)));
        }
        i = i + 1;
    }
    assert(its.take(items.len() as int) =~= its);
    r
}


/// Values that share one support.
pub struct Group {
    pub mcus: Vec<String>,
    pub values: Vec<String>,
}

impl Group {
    pub open spec fn pair(&self) -> (Support, Seq<Seq<char>>) {
        (strs(self.mcus@).to_set(), strs(self.values@))
    }
}

pub open spec fn group_lists(v: Seq<Group>) -> Seq<(Mcus, Seq<Seq<char>>)> {
    v.map_values(|g: Group| (strs(g.mcus@), strs(g.values@)))
}

pub open spec fn group_views(v: Seq<Group>) -> Seq<(Support, Seq<Seq<char>>)> {
    v.map_values(|g: Group| g.pair())
}

proof fn lemma_partition_insert(f: Map<Seq<char>, Support>, v: Seq<char>, k: Support)
    requires
        !f.contains_key(v),
    ensures
        partition_spec(f.insert(v, k)) == partition_spec(f).insert(
            k,
            if partition_spec(f).contains_key(k) {
                partition_spec(f)[k].insert(v)
            } else {
                Set::empty().insert(v)
            },
        ),
{
    let p = partition_spec(f);
    let f_new = f.insert(v, k);
    let p_new = partition_spec(f_new);
    let rhs = p.insert(
        k,
        if p.contains_key(k) {
            p[k].insert(v)
        } else {
            Set::empty().insert(v)
        },
    );
    assert(f_new[v] == k);
    assert forall|c: Support| #[trigger] p_new.contains_key(c) <==> rhs.contains_key(c) by {
        if p_new.contains_key(c) && c != k {
            let u = choose|u: Seq<char>| f_new.contains_key(u) && #[trigger] f_new[u] == c;
            assert(u != v);
            assert(f[u] == c);
        }
        if p.contains_key(c) {
            let u = choose|u: Seq<char>| f.contains_key(u) && #[trigger] f[u] == c;
            assert(u != v);
            assert(f_new[u] == c);
        }
    }
    assert forall|c: Support| p_new.contains_key(c) implies #[trigger] p_new[c] == rhs[c] by {
        if c == k {
            if p.contains_key(k) {
                assert(p_new[c] =~= p[k].insert(v));
            } else {
                assert forall|u: Seq<char>| p_new[c].contains(u) implies u == v by {
                    if u != v {
                        assert(f[u] == k);
                    }
                }
                assert(p_new[c] =~= Set::empty().insert(v));
            }
        } else {
            assert(p_new[c] =~= p[c]);
        }
    }
    assert(p_new =~= rhs);
}

/// Whether `a` and `b` hold the same strings.
pub fn same_set(a: &Vec<String>, b: &Vec<String>) -> (r: bool)
    ensures
        r == (strs(a@).to_set() == strs(b@).to_set()),
{
    let mut i: usize = 0;
    while i < a.len()
        invariant
            i <= a.len(),
            forall|k: int| 0 <= k < i ==> strs(b@).contains(#[trigger] strs(a@)[k]),
        decreases a.len() - i,
    {
        if !contains_str(b, a[i].as_str()) {
            assert(strs(a@).to_set().contains(strs(a@)[i as int]));
            assert(!strs(b@).to_set().contains(strs(a@)[i as int]));
            return false;
        }
        i = i + 1;
    }
    let mut j: usize = 0;
    while j < b.len()
        invariant
            j <= b.len(),
            forall|k: int| 0 <= k < a.len() ==> strs(b@).contains(#[trigger] strs(a@)[k]),
            forall|k: int| 0 <= k < j ==> strs(a@).contains(#[trigger] strs(b@)[k]),
        decreases b.len() - j,
    {
        if !contains_str(a, b[j].as_str()) {
            assert(strs(b@).to_set().contains(strs(b@)[j as int]));
            assert(!strs(a@).to_set().contains(strs(b@)[j as int]));
            return false;
        }
        j = j + 1;
    }
    assert forall|x: Seq<char>| strs(a@).to_set().contains(x) <==> strs(b@).to_set().contains(x) by {
        if strs(a@).contains(x) {
            let k = choose|k: int| 0 <= k < strs(a@).len() && strs(a@)[k] == x;
            assert(strs(b@).contains(strs(a@)[k]));
        }
        if strs(b@).contains(x) {
            let k = choose|k: int| 0 <= k < strs(b@).len() && strs(b@)[k] == x;
            assert(strs(a@).contains(strs(b@)[k]));
        }
    }
    assert(strs(a@).to_set() =~= strs(b@).to_set());
    true
}

/// The distinct values of `collected` grouped by their support: one group per
/// support, holding exactly the values with that support.
pub fn partition(collected: &Vec<Tagged>) -> (r: Vec<Group>)
    requires
        keys_unique(tagged_views(collected@)),
    ensures
        group_lists(r@) == partition_seq(tagged_views(collected@)),
        keys_unique(group_views(r@)),
        tag_map(group_views(r@)) == partition_spec(tag_map(tagged_views(collected@))),
{
    let ghost cs = tagged_views(collected@);
    let mut r: Vec<Group> = Vec::new();
    let mut i: usize = 0;
    proof {
        assert(tag_map(cs.take(0)) =~= Map::<Seq<char>, Support>::empty());
        assert(tag_map(group_views(r@)) =~= partition_spec(tag_map(cs.take(0))));
    }
    while i < collected.len()
        invariant
            i <= collected.len(),
            cs == tagged_views(collected@),
            keys_unique(cs),
            keys_unique(group_views(r@)),
            group_lists(r@) == partition_seq(cs.take(i as int)),
            tag_map(group_views(r@)) == partition_spec(tag_map(cs.take(i as int))),
        decreases collected.len() - i,
    {
        let ghost gs = group_views(r@);
        let ghost gl = group_lists(r@);
        let c = &collected[i];
        let ghost v = c.value@;
        let ghost k = strs(c.mcus@).to_set();
        let ghost pre = cs.take(i as int);
        proof {
            assert(cs.take(i + 1) =~= pre.push(cs[i as int]));
            assert(cs.take(i + 1).drop_last() =~= pre);
            assert(keys_unique(pre));
            assert(!has_key(pre, v)) by {
                if has_key(pre, v) {
                    let a = choose|a: int| 0 <= a < pre.len() && #[trigger] pre[a].0 == v;
                    assert(cs[a].0 != cs[i as int].0);
                }
            }
            lemma_tag_map_push(pre, v, strs(c.mcus@));
            lemma_partition_insert(tag_map(pre), v, k);
        }
        let mut j: usize = 0;
        while j < r.len() && !same_set(&r[j].mcus, &c.mcus)
            invariant
                j <= r.len(),
                gs == group_views(r@),
                forall|a: int| 0 <= a < j ==> gs[a].0 != k,
                k == strs(c.mcus@).to_set(),
            decreases r.len() - j,
        {
            assert(gs[j as int].0 == strs(r@[j as int].mcus@).to_set());
            j = j + 1;
        }
        if j < r.len() {
            let mut vals = clone_strs(&r[j].values);
            let ghost vb = strs(vals@);
            vals.push(c.value.clone());
            assert(strs(vals@) =~= vb.push(v));
            proof {
                lemma_value_at(gs, k, j as int);
                lemma_tag_map_update(gs, j as int, strs(vals@));
                vb.lemma_push_to_set_commute(v);
                assert(gl[j as int].0.to_set() == k);
                assert(has_group(gl, k));
                let q = group_index(gl, k);
                assert(gs[q].0 == k);
                if q < j {
                    assert(gs[q].0 != gs[j as int].0);
                } else if j < q {
                    assert(gs[j as int].0 != gs[q].0);
                }
            }
            let g = Group { mcus: clone_strs(&r[j].mcus), values: vals };
            r.set(j, g);
            assert(group_lists(r@) =~= gl.update(j as int, (gl[j as int].0, gl[j as int].1.push(v))));
            assert(group_views(r@) =~= gs.update(j as int, (gs[j as int].0, strs(g.values@))));
        } else {
            proof {
                assert(!has_key(gs, k));
                assert(!has_group(gl, k)) by {
                    if has_group(gl, k) {
                        let q = choose|q: int| 0 <= q < gl.len() && #[trigger] gl[q].0.to_set() == k;
                        assert(gs[q].0 == k);
                    }
                }
                lemma_tag_map_push(gs, k, seq![v]);
                Seq::<Seq<char>>::empty().lemma_push_to_set_commute(v);
                assert(seq![v] =~= Seq::<Seq<char>>::empty().push(v));
                assert(Seq::<Seq<char>>::empty().to_set() =~= Set::<Seq<char>>::empty());
                assert(seq![v].to_set() =~= Set::empty().insert(v));
            }
            let g = Group { mcus: clone_strs(&c.mcus), values: vec![c.value.clone()] };
            assert(strs(g.values@) =~= seq![v]);
            r.push(g);
            assert(group_views(r@) =~= gs.push((k, seq![v])));
            assert(group_lists(r@) =~= gl.push((strs(c.mcus@), seq![v])));
        }
        i = i + 1;
    }
    assert(cs.take(collected.len() as int) =~= cs);
    r
}


/// The items grouped by their own model sets, as [`bucket_seq`] says.
pub fn bucket(items: &Vec<Tagged>) -> (r: Vec<Group>)
    ensures
        group_lists(r@) == bucket_seq(tagged_views(items@)),
{
    let ghost its = tagged_views(items@);
    let mut r: Vec<Group> = Vec::new();
    let mut i: usize = 0;
    assert(group_lists(r@) =~= bucket_seq(its.take(0)));
    while i < items.len()
        invariant
            i <= items.len(),
            its == tagged_views(items@),
            keys_unique(group_views(r@)),
            group_lists(r@) == bucket_seq(its.take(i as int)),
        decreases items.len() - i,
    {
        let ghost gs = group_views(r@);
        let ghost gl = group_lists(r@);
        let c = &items[i];
        let ghost v = c.value@;
        let ghost k = strs(c.mcus@).to_set();
        proof {
            assert(its.take(i + 1).drop_last() =~= its.take(i as int));
            assert(its.take(i + 1).last() == c.pair());
        }
        let mut j: usize = 0;
        while j < r.len() && !same_set(&r[j].mcus, &c.mcus)
            invariant
                j <= r.len(),
                gs == group_views(r@),
                forall|a: int| 0 <= a < j ==> gs[a].0 != k,
                k == strs(c.mcus@).to_set(),
            decreases r.len() - j,
        {
            assert(gs[j as int].0 == strs(r@[j as int].mcus@).to_set());
            j = j + 1;
        }
        if j < r.len() {
            proof {
                assert(gl[j as int].0.to_set() == k);
                assert(has_group(gl, k));
                let q = group_index(gl, k);
                assert(gs[q].0 == k);
                if q < j {
                    assert(gs[q].0 != gs[j as int].0);
                } else if j < q {
                    assert(gs[j as int].0 != gs[q].0);
                }
            }
            if !contains_str(&r[j].values, c.value.as_str()) {
                let mut vals = clone_strs(&r[j].values);
                let ghost vb = strs(vals@);
                vals.push(c.value.clone());
                assert(strs(vals@) =~= vb.push(v));
                let g = Group { mcus: clone_strs(&r[j].mcus), values: vals };
                r.set(j, g);
                assert(group_lists(r@) =~= gl.update(j as int, (gl[j as int].0, gl[j as int].1.push(v))));
                assert(group_views(r@) =~= gs.update(j as int, (gs[j as int].0, strs(g.values@))));
                assert forall|a: int, b: int| 0 <= a < b < group_views(r@).len() implies #[trigger] group_views(r@)[a].0 != #[trigger] group_views(r@)[b].0 by {
                    assert(group_views(r@)[a].0 == gs[a].0 && group_views(r@)[b].0 == gs[b].0);
                }
            }
        } else {
            proof {
                assert(!has_group(gl, k)) by {
                    if has_group(gl, k) {
                        let q = choose|q: int| 0 <= q < gl.len() && #[trigger] gl[q].0.to_set() == k;
                        assert(gs[q].0 == k);
                    }
                }
            }
            let g = Group { mcus: clone_strs(&c.mcus), values: vec![c.value.clone()] };
            assert(strs(g.values@) =~= seq![v]);
            r.push(g);
            assert(group_lists(r@) =~= gl.push((strs(c.mcus@), seq![v])));
            assert(group_views(r@) =~= gs.push((k, seq![v])));
            assert forall|a: int, b: int| 0 <= a < b < group_views(r@).len() implies #[trigger] group_views(r@)[a].0 != #[trigger] group_views(r@)[b].0 by {
                if b == gs.len() {
                    assert(gs[a].0 != k);
                } else {
                    assert(gs[a].0 != gs[b].0);
                }
            }
        }
        i = i + 1;
    }
    assert(its.take(items.len() as int) =~= its);
    r
}


/// A grouping with each group's model list taken as a set.
pub open spec fn set_keyed(gl: Seq<(Mcus, Seq<Seq<char>>)>) -> Seq<(Support, Seq<Seq<char>>)> {
    gl.map_values(|g: (Mcus, Seq<Seq<char>>)| (g.0.to_set(), g.1))
}

proof fn lemma_union_list_set(a: Mcus, b: Mcus)
    ensures
        union_list(a, b).to_set() == a.to_set().union(b.to_set()),
    decreases b.len(),
{
    if b.len() == 0 {
        assert(b.to_set() =~= Set::<Seq<char>>::empty());
        assert(a.to_set().union(b.to_set()) =~= a.to_set());
    } else {
        let x = b.last();
        lemma_union_list_set(a, b.drop_last());
        let u = union_list(a, b.drop_last());
        assert(b =~= b.drop_last().push(x));
        b.drop_last().lemma_push_to_set_commute(x);
        u.lemma_push_to_set_commute(x);
        if u.contains(x) {
            assert(u.to_set().contains(x));
        }
        assert(union_list(a, b).to_set() =~= a.to_set().union(b.to_set()));
    }
}

/// The collection of `items` has each value once, with the union of its model
/// sets: what [`collect_spec`] states.
pub proof fn lemma_collect_seq(items: Seq<(Seq<char>, Mcus)>)
    ensures
        keys_unique(collect_seq(items)),
        tag_map(collect_seq(items)) == collect_spec(items),
    decreases items.len(),
{
    if items.len() == 0 {
        assert(tag_map(collect_seq(items)) =~= collect_spec(items));
    } else {
        let pre = items.drop_last();
        lemma_collect_seq(pre);
        let prev = collect_seq(pre);
        let (v, ms) = items.last();
        if has_key(prev, v) {
            let j = index_of_key(prev, v);
            lemma_value_at(prev, v, j);
            lemma_tag_map_update(prev, j, union_list(prev[j].1, ms));
            lemma_union_list_set(prev[j].1, ms);
            assert(tag_map(prev).contains_key(v));
            assert(tag_map(collect_seq(items)) =~= collect_spec(items));
        } else {
            lemma_tag_map_push(prev, v, ms);
            assert(!tag_map(prev).contains_key(v));
        }
    }
}

/// The grouping of a collection with distinct values holds, for each support,
/// exactly the values with that support: what [`partition_spec`] states.
pub proof fn lemma_partition_seq(cs: Seq<(Seq<char>, Mcus)>)
    requires
        keys_unique(cs),
    ensures
        keys_unique(set_keyed(partition_seq(cs))),
        tag_map(set_keyed(partition_seq(cs))) == partition_spec(tag_map(cs)),
    decreases cs.len(),
{
    if cs.len() == 0 {
        assert(tag_map(cs) =~= Map::<Seq<char>, Support>::empty());
        assert(tag_map(set_keyed(partition_seq(cs))) =~= partition_spec(tag_map(cs)));
    } else {
        let pre = cs.drop_last();
        let (v, ms) = cs.last();
        let k = ms.to_set();
        assert(keys_unique(pre));
        assert(!has_key(pre, v)) by {
            if has_key(pre, v) {
                let a = choose|a: int| 0 <= a < pre.len() && #[trigger] pre[a].0 == v;
                assert(cs[a].0 != cs[cs.len() - 1].0);
            }
        }
        lemma_partition_seq(pre);
        assert(cs =~= pre.push((v, ms)));
        lemma_tag_map_push(pre, v, ms);
        lemma_partition_insert(tag_map(pre), v, k);
        let gl = partition_seq(pre);
        let gs = set_keyed(gl);
        if has_group(gl, k) {
            let j = group_index(gl, k);
            assert(gs[j].0 == k);
            lemma_value_at(gs, k, j);
            lemma_tag_map_update(gs, j, gs[j].1.push(v));
            gs[j].1.lemma_push_to_set_commute(v);
            assert(set_keyed(partition_seq(cs)) =~= gs.update(j, (gs[j].0, gs[j].1.push(v))));
            assert(tag_map(gs).contains_key(k));
            assert(tag_map(set_keyed(partition_seq(cs))) =~= partition_spec(tag_map(cs)));
        } else {
            assert(!has_key(gs, k)) by {
                if has_key(gs, k) {
                    let q = choose|q: int| 0 <= q < gs.len() && #[trigger] gs[q].0 == k;
                    assert(gl[q].0.to_set() == k);
                }
            }
            lemma_tag_map_push(gs, k, seq![v]);
            Seq::<Seq<char>>::empty().lemma_push_to_set_commute(v);
            assert(seq![v] =~= Seq::<Seq<char>>::empty().push(v));
            assert(Seq::<Seq<char>>::empty().to_set() =~= Set::<Seq<char>>::empty());
            assert(set_keyed(partition_seq(cs)) =~= gs.push((k, seq![v])));
            assert(!tag_map(gs).contains_key(k));
            assert(tag_map(set_keyed(partition_seq(cs))) =~= partition_spec(tag_map(cs)));
        }
    }
}

/// The groups that the combined rendering makes of `items` are the equivalence
/// classes of their supports, and grouping them again gives the same groups.
pub proof fn lemma_rendered_grouping_idempotent(items: Seq<(Seq<char>, Mcus)>)
    ensures
        ({
            let g = tag_map(set_keyed(partition_seq(collect_seq(items))));
            &&& g == partition_spec(collect_spec(items))
            &&& members_spec(g) == collect_spec(items)
            &&& partition_spec(members_spec(g)) == g
        }),
{
    lemma_collect_seq(items);
    lemma_partition_seq(collect_seq(items));
    lemma_grouping_idempotent(collect_spec(items));
}

} // verus!
