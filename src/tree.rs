//! The aggregation tree: for every signal of every pin of every GPIO revision, the
//! microcontroller models that have it, under the key path
//! stem, device, (alternate function, role), pin, (revision group, revision).

use vstd::prelude::*;
use crate::order::{contains_str, set_alnum, sorted_set, strs};
use crate::text::{join, push_joined};

verus! {

/// A set of microcontroller model names, as a sorted duplicate-free sequence.
pub type Mcus = Seq<Seq<char>>;

/// Key path of a leaf: (stem, device), (alternate function, io role),
/// (port, pin number), (revision group, revision).
pub type LeafKey = ((Seq<char>, Seq<char>), (Seq<char>, Seq<char>), (Seq<char>, u32), (Seq<char>, Seq<char>));

/// Key of a GPIO revision: (revision group, revision).
pub type GpioKey = (Seq<char>, Seq<char>);

/// Whether `es` has an entry under `k`.
pub open spec fn has_key<K>(es: Seq<(K, Mcus)>, k: K) -> bool {
    exists|i: int| 0 <= i < es.len() && #[trigger] es[i].0 == k
}

/// No two entries of `es` share a key.
pub open spec fn keys_unique<K>(es: Seq<(K, Mcus)>) -> bool {
    forall|i: int, j: int| 0 <= i < j < es.len() ==> #[trigger] es[i].0 != #[trigger] es[j].0
}

/// The value under `k`, where `es` has one.
pub open spec fn value_of<K>(es: Seq<(K, Mcus)>, k: K) -> Mcus {
    es[choose|i: int| 0 <= i < es.len() && #[trigger] es[i].0 == k].1
}

/// Insertion of `v` under `k` where the first value stays: a new key is appended;
/// an existing one keeps its value, and the insertion is a conflict when `v`
/// differs from it.
pub open spec fn insert_entry<K>(es: Seq<(K, Mcus)>, k: K, v: Mcus) -> (Seq<(K, Mcus)>, bool) {
    if has_key(es, k) {
        (es, value_of(es, k) != v)
    } else {
        (es.push((k, v)), false)
    }
}

pub(crate) proof fn lemma_value_at<K>(es: Seq<(K, Mcus)>, k: K, i: int)
    requires
        keys_unique(es),
        0 <= i < es.len(),
        es[i].0 == k,
    ensures
        has_key(es, k),
        value_of(es, k) == es[i].1,
{
    let j = choose|j: int| 0 <= j < es.len() && #[trigger] es[j].0 == k;
    if j < i {
        assert(es[j].0 != es[i].0);
    } else if i < j {
        assert(es[i].0 != es[j].0);
    }
}

proof fn lemma_insert_unique<K>(es: Seq<(K, Mcus)>, k: K, v: Mcus)
    requires
        keys_unique(es),
    ensures
        keys_unique(insert_entry(es, k, v).0),
{
    if !has_key(es, k) {
        let n = es.push((k, v));
        assert forall|i: int, j: int| 0 <= i < j < n.len() implies #[trigger] n[i].0 != #[trigger] n[j].0 by {
            if j == es.len() {
                assert(es[i].0 != k);
            } else {
                assert(es[i].0 != es[j].0);
            }
        }
    }
}

/// Two different sets inserted under one fresh key: the first stays, the first
/// insertion is no conflict and the second is one.
pub proof fn lemma_first_insert_wins<K>(es: Seq<(K, Mcus)>, k: K, v1: Mcus, v2: Mcus)
    requires
        keys_unique(es),
        !has_key(es, k),
        v1 != v2,
    ensures
        ({
            let (es1, c1) = insert_entry(es, k, v1);
            let (es2, c2) = insert_entry(es1, k, v2);
            &&& !c1
            &&& c2
            &&& es2 == es1
            &&& es2.len() == es.len() + 1
            &&& keys_unique(es2)
            &&& value_of(es2, k) == v1
        }),
{
    let es1 = es.push((k, v1));
    lemma_insert_unique(es, k, v1);
    lemma_value_at(es1, k, es.len() as int);
}

/// Equality of two lists of strings.
pub fn same_strs(a: &Vec<String>, b: &Vec<String>) -> (r: bool)
    ensures
        r == (strs(a@) == strs(b@)),
{
    if a.len() != b.len() {
        assert(strs(a@).len() != strs(b@).len());
        return false;
    }
    let mut i: usize = 0;
    while i < a.len()
        invariant
            a.len() == b.len(),
            i <= a.len(),
            forall|k: int| 0 <= k < i ==> strs(a@)[k] == strs(b@)[k],
        decreases a.len() - i,
    {
        if a[i] != b[i] {
            assert(strs(a@)[i as int] != strs(b@)[i as int]);
            return false;
        }
        i = i + 1;
    }
    assert(strs(a@) =~= strs(b@));
    true
}

/// A leaf of the tree: one key path and the models that have it.
pub struct Leaf {
    pub stem: String,
    pub device: String,
    pub af: String,
    pub io: String,
    pub port: String,
    pub number: u32,
    pub group: String,
    pub version: String,
    pub mcus: Vec<String>,
}

impl Leaf {
    pub open spec fn key(&self) -> LeafKey {
        ((self.stem@, self.device@), (self.af@, self.io@), (self.port@, self.number), (
            self.group@,
            self.version@,
        ))
    }

    pub open spec fn entry(&self) -> (LeafKey, Mcus) {
        (self.key(), strs(self.mcus@))
    }

    fn same_key(&self, o: &Leaf) -> (r: bool)
        ensures
            r == (self.key() == o.key()),
    {
        self.stem == o.stem && self.device == o.device && self.af == o.af && self.io == o.io
            && self.port == o.port && self.number == o.number && self.group == o.group
            && self.version == o.version
    }
}

pub open spec fn leaf_entries(v: Seq<Leaf>) -> Seq<(LeafKey, Mcus)> {
    v.map_values(|l: Leaf| l.entry())
}

/// The models of one GPIO revision.
pub struct GpioEntry {
    pub group: String,
    pub version: String,
    pub mcus: Vec<String>,
}

impl GpioEntry {
    pub open spec fn entry(&self) -> (GpioKey, Mcus) {
        ((self.group@, self.version@), strs(self.mcus@))
    }
}

pub open spec fn gpio_entries(v: Seq<GpioEntry>) -> Seq<(GpioKey, Mcus)> {
    v.map_values(|e: GpioEntry| e.entry())
}

/// The aggregation tree, with the models of each GPIO revision beside it.
pub struct AfTree {
    mcu_gpio_map: Vec<GpioEntry>,
    tree: Vec<Leaf>,
}

impl AfTree {
    /// The GPIO revisions, in the order they were first registered.
    pub closed spec fn gpios(&self) -> Seq<(GpioKey, Mcus)> {
        gpio_entries(self.mcu_gpio_map@)
    }

    /// The leaves, in the order their key paths were first inserted.
    pub closed spec fn leaves(&self) -> Seq<(LeafKey, Mcus)> {
        leaf_entries(self.tree@)
    }

    pub open spec fn wf(&self) -> bool {
        keys_unique(self.gpios()) && keys_unique(self.leaves())
    }

    /// An empty tree.
    pub fn new() -> (r: AfTree)
        ensures
            r.wf(),
            r.gpios() == Seq::<(GpioKey, Mcus)>::empty(),
            r.leaves() == Seq::<(LeafKey, Mcus)>::empty(),
    {
        let r = AfTree { mcu_gpio_map: Vec::new(), tree: Vec::new() };
        assert(r.gpios() =~= Seq::<(GpioKey, Mcus)>::empty());
        assert(r.leaves() =~= Seq::<(LeafKey, Mcus)>::empty());
        r
    }

    /// The leaves themselves, in the order of [`AfTree::leaves`].
    pub fn leaf_list(&self) -> (r: &Vec<Leaf>)
        ensures
            leaf_entries(r@) == self.leaves(),
    {
        &self.tree
    }

    /// The GPIO revisions themselves, in the order of [`AfTree::gpios`].
    pub fn gpio_list(&self) -> (r: &Vec<GpioEntry>)
        ensures
            gpio_entries(r@) == self.gpios(),
    {
        &self.mcu_gpio_map
    }

    /// Inserts `leaf` under its key path; returns whether that was a conflict.
    /// The first value under a key path stays.
    pub fn insert(&mut self, leaf: Leaf) -> (conflict: bool)
        requires
            old(self).wf(),
        ensures
            final(self).wf(),
            final(self).gpios() == old(self).gpios(),
            (final(self).leaves(), conflict) == insert_entry(old(self).leaves(), leaf.key(), strs(leaf.mcus@)),
    {
        let ghost es = self.leaves();
        proof {
            lemma_insert_unique(es, leaf.key(), strs(leaf.mcus@));
        }
        let mut i: usize = 0;
        while i < self.tree.len()
            invariant
                i <= self.tree.len(),
                es == leaf_entries(self.tree@),
                keys_unique(es),
                self.wf(),
                forall|j: int| 0 <= j < i ==> es[j].0 != leaf.key(),
            decreases self.tree.len() - i,
        {
            if self.tree[i].same_key(&leaf) {
                proof {
                    lemma_value_at(es, leaf.key(), i as int);
                }
                return !same_strs(&self.tree[i].mcus, &leaf.mcus);
            }
            i = i + 1;
        }
        assert(!has_key(es, leaf.key()));
        self.tree.push(leaf);
        assert(self.leaves() =~= es.push((leaf.key(), strs(leaf.mcus@))));
        false
    }

    /// Registers the models of a GPIO revision; returns whether that was a
    /// conflict. The first set registered for a revision stays.
    pub fn register_gpio(&mut self, entry: GpioEntry) -> (conflict: bool)
        requires
            old(self).wf(),
        ensures
            final(self).wf(),
            final(self).leaves() == old(self).leaves(),
            (final(self).gpios(), conflict) == insert_entry(old(self).gpios(), entry.entry().0, entry.entry().1),
    {
        let ghost es = self.gpios();
        let ghost k = entry.entry().0;
        proof {
            lemma_insert_unique(es, k, entry.entry().1);
        }
        let mut i: usize = 0;
        while i < self.mcu_gpio_map.len()
            invariant
                i <= self.mcu_gpio_map.len(),
                es == gpio_entries(self.mcu_gpio_map@),
                keys_unique(es),
                k == entry.entry().0,
                self.wf(),
                forall|j: int| 0 <= j < i ==> es[j].0 != k,
            decreases self.mcu_gpio_map.len() - i,
        {
            if self.mcu_gpio_map[i].group == entry.group && self.mcu_gpio_map[i].version == entry.version {
                proof {
                    lemma_value_at(es, k, i as int);
                }
                return !same_strs(&self.mcu_gpio_map[i].mcus, &entry.mcus);
            }
            i = i + 1;
        }
        assert(!has_key(es, k));
        self.mcu_gpio_map.push(entry);
        assert(self.gpios() =~= es.push(entry.entry()));
        false
    }
}


/// The stem of each leaf, in leaf order.
pub open spec fn leaf_stems(es: Seq<(LeafKey, Mcus)>) -> Seq<Seq<char>> {
    es.map_values(|e: (LeafKey, Mcus)| e.0.0.0)
}

/// The names of `sel` that `stems` lacks, in the order of `sel`.
pub open spec fn missing_of(sel: Seq<Seq<char>>, stems: Seq<Seq<char>>) -> Seq<Seq<char>>
    decreases sel.len(),
{
    if sel.len() == 0 {
        Seq::empty()
    } else if stems.contains(sel.last()) {
        missing_of(sel.drop_last(), stems)
    } else {
        missing_of(sel.drop_last(), stems).push(sel.last())
    }
}

/// The names of `stems` that `sel` holds, in the order of `stems`.
pub open spec fn kept_of(stems: Seq<Seq<char>>, sel: Seq<Seq<char>>) -> Seq<Seq<char>>
    decreases stems.len(),
{
    if stems.len() == 0 {
        Seq::empty()
    } else if sel.contains(stems.last()) {
        kept_of(stems.drop_last(), sel).push(stems.last())
    } else {
        kept_of(stems.drop_last(), sel)
    }
}

pub open spec fn invalid_stem_msg(missing: Seq<Seq<char>>) -> Seq<char> {
    seq!['I', 'n', 'v', 'a', 'l', 'i', 'd', ' ', 's', 't', 'e', 'm'] + (if missing.len() == 1 {
        Seq::empty()
    } else {
        seq!['s']
    }) + seq![' ', 'd', 'e', 't', 'e', 'c', 't', 'e', 'd', '!', ' ', '('] + join(missing, seq!['\'', ',', '\''])
        + seq![')']
}

pub open spec fn strs_ref(v: Seq<&str>) -> Seq<Seq<char>> {
    v.map_values(|s: &str| s@)
}

pub open spec fn selection_view(sel: Option<Vec<&str>>) -> Option<Seq<Seq<char>>> {
    match sel {
        Some(v) => Some(strs_ref(v@)),
        None => None,
    }
}

/// The stems that a selection visits, in numeric-aware order, or the error that
/// lists the selected names the tree lacks.
pub open spec fn stem_choice(leaves: Seq<(LeafKey, Mcus)>, sel: Option<Seq<Seq<char>>>) -> Result<Seq<Seq<char>>, Seq<char>> {
    let stems = set_alnum(leaf_stems(leaves));
    match sel {
        None => Ok(stems),
        Some(sel) => {
            let missing = missing_of(sel, stems);
            if missing.len() > 0 {
                Err(invalid_stem_msg(missing))
            } else {
                Ok(kept_of(stems, sel))
            }
        },
    }
}

impl AfTree {
    /// The distinct stems of the tree, in numeric-aware order.
    pub fn stems(&self) -> (r: Vec<String>)
        ensures
            strs(r@) == set_alnum(leaf_stems(self.leaves())),
    {
        let mut all: Vec<String> = Vec::new();
        let mut i: usize = 0;
        while i < self.tree.len()
            invariant
                i <= self.tree.len(),
                strs(all@) == leaf_stems(self.leaves()).take(i as int),
            decreases self.tree.len() - i,
        {
            let ghost before = all@;
            all.push(self.tree[i].stem.clone());
            assert(strs(all@) =~= strs(before).push(self.tree@[i as int].stem@));
            i = i + 1;
            assert(strs(all@) =~= leaf_stems(self.leaves()).take(i as int));
        }
        assert(leaf_stems(self.leaves()).take(self.tree.len() as int) =~= leaf_stems(self.leaves()));
        sorted_set(&all)
    }

    /// The stems to visit: all of them, or those of `stem_selection`, in
    /// numeric-aware order. A selection that names a stem the tree lacks is an
    /// error that lists every such name.
    pub fn iter(&self, stem_selection: &Option<Vec<&str>>) -> (r: Result<Vec<String>, String>)
        ensures
            match (r, stem_choice(self.leaves(), selection_view(*stem_selection))) {
                (Ok(v), Ok(s)) => strs(v@) == s,
                (Err(e), Err(m)) => e@ == m,
                _ => false,
            },
            ({
                let stems = set_alnum(leaf_stems(self.leaves()));
                match stem_selection {
                    None => r matches Ok(v) && strs(v@) == stems,
                    Some(sel) => {
                        let missing = missing_of(strs_ref(sel@), stems);
                        if missing.len() > 0 {
                            r matches Err(e) && e@ == invalid_stem_msg(missing)
                        } else {
                            r matches Ok(v) && strs(v@) == kept_of(stems, strs_ref(sel@))
                        }
                    },
                }
            }),
    {
        let stems = self.stems();
        match stem_selection {
            None => Ok(stems),
            Some(sel) => {
                let ghost sv = strs_ref(sel@);
                let mut missing: Vec<String> = Vec::new();
                let mut wanted: Vec<String> = Vec::new();
                let mut i: usize = 0;
                while i < sel.len()
                    invariant
                        i <= sel.len(),
                        sv == strs_ref(sel@),
                        strs(missing@) == missing_of(sv.take(i as int), strs(stems@)),
                        strs(wanted@) == sv.take(i as int),
                    decreases sel.len() - i,
                {
                    proof {
                        assert(sv.take(i + 1).drop_last() =~= sv.take(i as int));
                    }
                    let s = String::from_str(sel[i]);
                    let ghost wb = wanted@;
                    wanted.push(String::from_str(sel[i]));
                    assert(strs(wanted@) =~= strs(wb).push(sv[i as int]));
                    if !contains_str(&stems, sel[i]) {
                        let ghost mb = missing@;
                        missing.push(s);
                        assert(strs(missing@) =~= strs(mb).push(sv[i as int]));
                    }
                    i = i + 1;
                    assert(strs(wanted@) =~= sv.take(i as int));
                }
                assert(sv.take(sel.len() as int) =~= sv);
                if missing.len() > 0 {
                    proof {
                        reveal_strlit("Invalid stem");
                        reveal_strlit("s");
                        reveal_strlit(" detected! (");
                        reveal_strlit("','");
                        reveal_strlit(")");
                    }
                    let mut msg = String::from_str("Invalid stem");
                    let ghost plural: Seq<char> = if missing.len() == 1 {
                        Seq::empty()
                    } else {
                        seq!['s']
                    };
                    if missing.len() != 1 {
                        msg.append("s");
                    }
                    assert(msg@ =~= seq!['I', 'n', 'v', 'a', 'l', 'i', 'd', ' ', 's', 't', 'e', 'm'] + plural);
                    msg.append(" detected! (");
                    let ghost m1 = msg@;
                    push_joined(&mut msg, &missing, "','");
                    assert(missing@.map_values(|p: String| p@) =~= strs(missing@));
                    assert("','"@ =~= seq!['\'', ',', '\'']);
                    assert(msg@ == m1 + join(strs(missing@), seq!['\'', ',', '\'']));
                    msg.append(")");
                    assert(msg@ =~= invalid_stem_msg(strs(missing@)));
                    return Err(msg);
                }
                let mut kept: Vec<String> = Vec::new();
                let mut j: usize = 0;
                while j < stems.len()
                    invariant
                        j <= stems.len(),
                        strs(wanted@) == sv,
                        strs(kept@) == kept_of(strs(stems@).take(j as int), sv),
                    decreases stems.len() - j,
                {
                    proof {
                        assert(strs(stems@).take(j + 1).drop_last() =~= strs(stems@).take(j as int));
                    }
                    if contains_str(&wanted, stems[j].as_str()) {
                        let ghost kb = kept@;
                        kept.push(stems[j].clone());
                        assert(strs(kept@) =~= strs(kb).push(strs(stems@)[j as int]));
                    }
                    j = j + 1;
                }
                assert(strs(stems@).take(stems.len() as int) =~= strs(stems@));
                Ok(kept)
            },
        }
    }
}

} // verus!
