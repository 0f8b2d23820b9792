//! The flag list: one flag per GPIO revision, the package flags, and one alias
//! per microcontroller naming the flags it depends on.

use vstd::prelude::*;
use crate::ident::{feature_base_spec, gpio_version_to_feature, io_head};
use crate::order::{lemma_sorted_lex_order_free, set_alnum, sort_lex, sorted_lex, sorted_set, str_eq, strs};
use crate::text::{chars_of, join, lowercase_of, occurs_at, push_joined, to_lowercase};

verus! {

/// The feature of a GPIO revision, where it has one.
pub open spec fn feature_of(gpio: Seq<char>) -> Option<Seq<char>> {
    match feature_base_spec(gpio) {
        Some(b) => Some(io_head() + b),
        None => None,
    }
}

/// The first revision of `gs` that has no feature.
pub open spec fn first_unfeatured(gs: Seq<(Seq<char>, Seq<Seq<char>>)>) -> Option<Seq<char>>
    decreases gs.len(),
{
    if gs.len() == 0 {
        None
    } else if feature_of(gs[0].0) is None {
        Some(gs[0].0)
    } else {
        first_unfeatured(gs.drop_first())
    }
}

pub open spec fn l0_family() -> Seq<char> {
    "STM32L0"@
}

/// The sub-family flag that an STM32L0 model depends on: `STM32L0`, any
/// character but a line break, then `1`, `2` or `3`.
pub open spec fn family_dep(family: Seq<char>, mcu: Seq<char>) -> Option<Seq<char>> {
    if family == l0_family() && mcu.len() >= 9 && occurs_at(mcu, 0, l0_family()) && mcu[7] != '\n'
        && '1' <= mcu[8] && mcu[8] <= '3' {
        Some("stm32l0x"@.push(mcu[8]))
    } else {
        None
    }
}

/// The package of `mcu`: the value of the first entry of `pkgs` under it.
pub open spec fn package_of(pkgs: Seq<(Seq<char>, Seq<char>)>, mcu: Seq<char>) -> Option<Seq<char>>
    decreases pkgs.len(),
{
    if pkgs.len() == 0 {
        None
    } else if pkgs[0].0 == mcu {
        Some(pkgs[0].1)
    } else {
        package_of(pkgs.drop_first(), mcu)
    }
}

pub open spec fn opt_seq(o: Option<Seq<char>>) -> Seq<Seq<char>> {
    match o {
        Some(x) => seq![x],
        None => Seq::empty(),
    }
}

pub open spec fn lower_opt(o: Option<Seq<char>>) -> Option<Seq<char>> {
    match o {
        Some(x) => Some(lowercase_of(x)),
        None => None,
    }
}

/// The flags a model depends on: its revision's, its sub-family's, its package's.
pub open spec fn deps_of(feature: Seq<char>, family: Seq<char>, pkgs: Seq<(Seq<char>, Seq<char>)>, mcu: Seq<char>) -> Seq<Seq<char>> {
    seq![feature] + opt_seq(family_dep(family, mcu)) + opt_seq(lower_opt(package_of(pkgs, mcu)))
}

pub open spec fn quoted(s: Seq<Seq<char>>) -> Seq<Seq<char>> {
    s.map_values(|x: Seq<char>| "\""@ + x + "\""@)
}

/// The alias line of a model: `mcu-<name> = ["<flag>", ...]`.
pub open spec fn alias_line(feature: Seq<char>, family: Seq<char>, pkgs: Seq<(Seq<char>, Seq<char>)>, mcu: Seq<char>) -> Seq<char> {
    "mcu-"@ + mcu + " = ["@ + join(quoted(deps_of(feature, family, pkgs, mcu)), ", "@) + "]"@
}

/// Alias lines of the models `ms` of a revision with feature `feature`.
pub open spec fn alias_lines(feature: Seq<char>, family: Seq<char>, pkgs: Seq<(Seq<char>, Seq<char>)>, ms: Seq<Seq<char>>) -> Seq<Seq<char>>
    decreases ms.len(),
{
    if ms.len() == 0 {
        Seq::empty()
    } else {
        alias_lines(feature, family, pkgs, ms.drop_last()).push(alias_line(feature, family, pkgs, ms.last()))
    }
}

/// Features of the revisions of `gs`, in order.
pub open spec fn features_of(gs: Seq<(Seq<char>, Seq<Seq<char>>)>) -> Seq<Seq<char>>
    decreases gs.len(),
{
    if gs.len() == 0 {
        Seq::empty()
    } else {
        features_of(gs.drop_last()).push(feature_of(gs.last().0).unwrap())
    }
}

/// Alias lines of all models of `gs`, revision by revision.
pub open spec fn all_aliases(gs: Seq<(Seq<char>, Seq<Seq<char>>)>, family: Seq<char>, pkgs: Seq<(Seq<char>, Seq<char>)>) -> Seq<Seq<char>>
    decreases gs.len(),
{
    if gs.len() == 0 {
        Seq::empty()
    } else {
        all_aliases(gs.drop_last(), family, pkgs) + alias_lines(feature_of(gs.last().0).unwrap(), family, pkgs, gs.last().1)
    }
}

/// Each of `lines` followed by `suffix`.
pub open spec fn lines_with(lines: Seq<Seq<char>>, suffix: Seq<char>) -> Seq<char>
    decreases lines.len(),
{
    if lines.len() == 0 {
        Seq::empty()
    } else {
        lines_with(lines.drop_last(), suffix) + lines.last() + suffix
    }
}

pub open spec fn package_section(pkgs: Seq<(Seq<char>, Seq<char>)>) -> Seq<char> {
    if pkgs.len() == 0 {
        Seq::empty()
    } else {
        "# Physical packages\n"@ + lines_with(set_alnum(pkgs.map_values(|p: (Seq<char>, Seq<char>)| lowercase_of(p.1))), " = []\n"@) + "\n"@
    }
}

/// The flag list of the revisions `gs` (each with the reference names of its
/// models), the packages `pkgs` and the family `family`.
pub open spec fn features_text(gs: Seq<(Seq<char>, Seq<Seq<char>>)>, pkgs: Seq<(Seq<char>, Seq<char>)>, family: Seq<char>) -> Seq<char> {
    "# Features based on the GPIO peripheral version\n# This determines the pin function mapping of the MCU\n"@
        + lines_with(sorted_lex(features_of(gs)), " = []\n"@) + "\n"@ + package_section(pkgs)
        + "# MCUs\n"@ + lines_with(sorted_lex(all_aliases(gs, family, pkgs)), "\n"@)
}

pub open spec fn gpio_pairs(v: Seq<(String, Vec<String>)>) -> Seq<(Seq<char>, Seq<Seq<char>>)> {
    v.map_values(|e: (String, Vec<String>)| (e.0@, strs(e.1@)))
}

pub open spec fn package_pairs(v: Seq<(String, String)>) -> Seq<(Seq<char>, Seq<char>)> {
    v.map_values(|e: (String, String)| (e.0@, e.1@))
}

fn push_lines(out: &mut String, lines: &Vec<String>, suffix: &str)
    ensures
        final(out)@ == old(out)@ + lines_with(strs(lines@), suffix@),
{
    let ghost start = out@;
    let mut i: usize = 0;
    while i < lines.len()
        invariant
            i <= lines.len(),
            out@ == start + lines_with(strs(lines@).take(i as int), suffix@),
        decreases lines.len() - i,
    {
        proof {
            assert(strs(lines@).take(i + 1).drop_last() =~= strs(lines@).take(i as int));
        }
        out.append(lines[i].as_str());
        out.append(suffix);
        i = i + 1;
        assert(out@ =~= start + lines_with(strs(lines@).take(i as int), suffix@));
    }
    assert(strs(lines@).take(lines.len() as int) =~= strs(lines@));
}

fn package_lookup(pkgs: &Vec<(String, String)>, mcu: &str) -> (r: Option<String>)
    ensures
        r matches Some(p) ==> package_of(package_pairs(pkgs@), mcu@) == Some(p@),
        r is None ==> package_of(package_pairs(pkgs@), mcu@) is None,
{
    let ghost ps = package_pairs(pkgs@);
    let mut i: usize = 0;
    assert(ps.skip(0) =~= ps);
    while i < pkgs.len()
        invariant
            i <= pkgs.len(),
            ps == package_pairs(pkgs@),
            package_of(ps, mcu@) == package_of(ps.skip(i as int), mcu@),
        decreases pkgs.len() - i,
    {
        assert(ps.skip(i as int).drop_first() =~= ps.skip(i + 1));
        assert(ps.skip(i as int)[0] == ps[i as int]);
        if str_eq(pkgs[i].0.as_str(), mcu) {
            return Some(pkgs[i].1.clone());
        }
        i = i + 1;
    }
    None
}

fn alias_for(feature: &String, family: &str, pkgs: &Vec<(String, String)>, mcu: &str) -> (r: String)
    ensures
        r@ == alias_line(feature@, family@, package_pairs(pkgs@), mcu@),
{
    let mut deps: Vec<String> = Vec::new();
    let mut q = String::from_str("\"");
    q.append(feature.as_str());
    q.append("\"");
    deps.push(q);
    let ghost want = deps_of(feature@, family@, package_pairs(pkgs@), mcu@);
    let cs = chars_of(mcu);
    let l0 = str_eq(family, "STM32L0");
    if l0 && cs.len() >= 9 {
        let head = vec!['S', 'T', 'M', '3', '2', 'L', '0'];
        proof {
            assert("STM32L0"@ =~= seq!['S', 'T', 'M', '3', '2', 'L', '0']) by {
                reveal_strlit("STM32L0");
            }
        }
        if crate::text::has_at(&cs, 0, &head) && cs[7] != '\n' && '1' <= cs[8] && cs[8] <= '3' {
            let mut d = String::from_str("\"stm32l0x");
            crate::text::push_char(&mut d, cs[8]);
            d.append("\"");
            proof {
                reveal_strlit("\"stm32l0x");
                reveal_strlit("stm32l0x");
                reveal_strlit("\"");
                assert(d@ =~= "\""@ + "stm32l0x"@.push(cs@[8]) + "\""@);
            }
            deps.push(d);
        }
    }
    proof {
        reveal_strlit("STM32L0");
    }
    let ghost n1 = deps@.len();
    match package_lookup(pkgs, mcu) {
        Some(p) => {
            let mut d = String::from_str("\"");
            let low = to_lowercase(p.as_str());
            d.append(low.as_str());
            d.append("\"");
            deps.push(d);
        },
        None => {},
    }
    assert(strs(deps@) =~= quoted(want));
    let mut r = String::from_str("mcu-");
    r.append(mcu);
    r.append(" = [");
    push_joined(&mut r, &deps, ", ");
    r.append("]");
    assert(deps@.map_values(|p: String| p@) =~= strs(deps@));
    r
}

/// The flag list, as [`features_text`] gives it, of a map from revisions (each
/// named once) to reference names; where a revision has no feature,
/// the error of [`gpio_version_to_feature`] for the first such revision.
pub fn generate_features(mcu_gpio_map: &Vec<(String, Vec<String>)>, mcu_package_map: &Vec<(String, String)>, mcu_family: &str) -> (r: Result<String, String>)
    requires
        forall|i: int, j: int| 0 <= i < j < mcu_gpio_map.len() ==> #[trigger] mcu_gpio_map@[i].0@ != #[trigger] mcu_gpio_map@[j].0@,
    ensures
        ({
            let gs = gpio_pairs(mcu_gpio_map@);
            match first_unfeatured(gs) {
                Some(g) => r matches Err(e) && e@ == crate::ident::parse_version_msg(g),
                None => r matches Ok(t) && t@ == features_text(gs, package_pairs(mcu_package_map@), mcu_family@),
            }
        }),
{
    let ghost gs = gpio_pairs(mcu_gpio_map@);
    let ghost pk = package_pairs(mcu_package_map@);
    let mut features: Vec<String> = Vec::new();
    let mut aliases: Vec<String> = Vec::new();
    let mut i: usize = 0;
    assert(gs.skip(0) =~= gs);
    while i < mcu_gpio_map.len()
        invariant
            i <= mcu_gpio_map.len(),
            gs == gpio_pairs(mcu_gpio_map@),
            pk == package_pairs(mcu_package_map@),
            first_unfeatured(gs) == first_unfeatured(gs.skip(i as int)),
            forall|k: int| 0 <= k < i ==> feature_of(#[trigger] gs[k].0) is Some,
            strs(features@) == features_of(gs.take(i as int)),
            strs(aliases@) == all_aliases(gs.take(i as int), mcu_family@, pk),
        decreases mcu_gpio_map.len() - i,
    {
        let (gpio, mcus) = (&mcu_gpio_map[i].0, &mcu_gpio_map[i].1);
        proof {
            assert(gs.skip(i as int).drop_first() =~= gs.skip(i + 1));
            assert(gs.skip(i as int)[0] == gs[i as int]);
            assert(gs.take(i + 1).drop_last() =~= gs.take(i as int));
        }
        let f = match gpio_version_to_feature(gpio.as_str()) {
            Ok(f) => f,
            Err(e) => {
                return Err(e);
            },
        };
        let ghost fb = features@;
        features.push(f.clone());
        assert(strs(features@) =~= strs(fb).push(f@));
        let ghost ab = strs(aliases@);
        let mut j: usize = 0;
        assert(strs(mcus@).take(0) =~= Seq::<Seq<char>>::empty());
        while j < mcus.len()
            invariant
                j <= mcus.len(),
                pk == package_pairs(mcu_package_map@),
                strs(aliases@) == ab + alias_lines(f@, mcu_family@, pk, strs(mcus@).take(j as int)),
            decreases mcus.len() - j,
        {
            proof {
                assert(strs(mcus@).take(j + 1).drop_last() =~= strs(mcus@).take(j as int));
            }
            let a = alias_for(&f, mcu_family, mcu_package_map, mcus[j].as_str());
            let ghost before = aliases@;
            aliases.push(a);
            assert(strs(aliases@) =~= strs(before).push(a@));
            j = j + 1;
            assert(strs(aliases@) =~= ab + alias_lines(f@, mcu_family@, pk, strs(mcus@).take(j as int)));
        }
        assert(strs(mcus@).take(mcus.len() as int) =~= strs(mcus@));
        i = i + 1;
    }
    assert(gs.take(mcu_gpio_map.len() as int) =~= gs);
    let main_features = sort_lex(&features);
    let sorted_aliases = sort_lex(&aliases);
    let mut out = String::from_str(
        "# Features based on the GPIO peripheral version\n# This determines the pin function mapping of the MCU\n",
    );
    push_lines(&mut out, &main_features, " = []\n");
    out.append("\n");
    if mcu_package_map.len() > 0 {
        out.append("# Physical packages\n");
        let mut packages: Vec<String> = Vec::new();
        let mut k: usize = 0;
        while k < mcu_package_map.len()
            invariant
                k <= mcu_package_map.len(),
                pk == package_pairs(mcu_package_map@),
                strs(packages@) == pk.take(k as int).map_values(|p: (Seq<char>, Seq<char>)| lowercase_of(p.1)),
            decreases mcu_package_map.len() - k,
        {
            let ghost before = packages@;
            let low = to_lowercase(mcu_package_map[k].1.as_str());
            assert(pk[k as int].1 == mcu_package_map@[k as int].1@);
            packages.push(low);
            assert(strs(packages@) =~= strs(before).push(low@));
            assert(pk.take(k + 1) =~= pk.take(k as int).push(pk[k as int]));
            k = k + 1;
            assert(strs(packages@) =~= pk.take(k as int).map_values(|p: (Seq<char>, Seq<char>)| lowercase_of(p.1)));
        }
        assert(pk.take(mcu_package_map.len() as int) =~= pk);
        let uniq = sorted_set(&packages);
        push_lines(&mut out, &uniq, " = []\n");
        out.append("\n");
    }
    out.append("# MCUs\n");
    push_lines(&mut out, &sorted_aliases, "\n");
    assert(out@ =~= features_text(gs, pk, mcu_family@));
    Ok(out)
}


/// `s` with each element mapped by `f`, as a multiset, depends on the multiset of
/// `s` alone.
proof fn lemma_map_multiset<A, B>(s1: Seq<A>, s2: Seq<A>, f: spec_fn(A) -> B)
    requires
        s1.to_multiset() == s2.to_multiset(),
    ensures
        s1.map_values(f).to_multiset() == s2.map_values(f).to_multiset(),
    decreases s1.len(),
{
    broadcast use vstd::seq_lib::group_to_multiset_ensures;
    broadcast use vstd::multiset::group_multiset_axioms;
    vstd::seq_lib::to_multiset_len(s1);
    vstd::seq_lib::to_multiset_len(s2);
    if s1.len() == 0 {
        assert(s1.map_values(f) =~= Seq::<B>::empty());
        assert(s2.map_values(f) =~= Seq::<B>::empty());
    } else {
        let x = s1.last();
        let p1 = s1.drop_last();
        assert(s1 =~= p1.push(x));
        assert(s2.to_multiset().count(x) > 0);
        assert(s2.contains(x));
        let k = choose|k: int| 0 <= k < s2.len() && s2[k] == x;
        let p2 = s2.remove(k);
        assert(p1.to_multiset() =~= s1.to_multiset().remove(x));
        assert(p2.to_multiset() =~= s2.to_multiset().remove(x));
        lemma_map_multiset(p1, p2, f);
        assert(s1.map_values(f) =~= p1.map_values(f).push(f(x)));
        assert(s2.map_values(f).remove(k) =~= p2.map_values(f));
        let m2 = s2.map_values(f);
        assert(m2[k] == f(x));
        assert(m2.remove(k).to_multiset() =~= m2.to_multiset().remove(f(x)));
        assert(m2.to_multiset().count(f(x)) > 0) by {
            assert(m2.contains(f(x)));
        }
        assert(m2.to_multiset() =~= m2.to_multiset().remove(f(x)).insert(f(x)));
    }
}

/// The flag list does not depend on the order of its lines: where the two maps
/// give the same revision flags and the same alias lines, as often each, in
/// whatever order, the texts are equal.
pub proof fn lemma_features_order_free(gs1: Seq<(Seq<char>, Seq<Seq<char>>)>, gs2: Seq<(Seq<char>, Seq<Seq<char>>)>, pkgs: Seq<(Seq<char>, Seq<char>)>, family: Seq<char>)
    requires
        features_of(gs1).to_multiset() == features_of(gs2).to_multiset(),
        all_aliases(gs1, family, pkgs).to_multiset() == all_aliases(gs2, family, pkgs).to_multiset(),
    ensures
        features_text(gs1, pkgs, family) == features_text(gs2, pkgs, family),
{
    lemma_sorted_lex_order_free(features_of(gs1), features_of(gs2));
    lemma_sorted_lex_order_free(all_aliases(gs1, family, pkgs), all_aliases(gs2, family, pkgs));
}

/// The revision flags of a map are the feature of each of its revisions: as a
/// multiset they depend on the multiset of its entries alone.
pub proof fn lemma_features_of_order_free(gs1: Seq<(Seq<char>, Seq<Seq<char>>)>, gs2: Seq<(Seq<char>, Seq<Seq<char>>)>)
    requires
        gs1.to_multiset() == gs2.to_multiset(),
    ensures
        features_of(gs1).to_multiset() == features_of(gs2).to_multiset(),
{
    let f = |e: (Seq<char>, Seq<Seq<char>>)| feature_of(e.0).unwrap();
    lemma_features_of_map(gs1);
    lemma_features_of_map(gs2);
    lemma_map_multiset(gs1, gs2, f);
}

proof fn lemma_features_of_map(gs: Seq<(Seq<char>, Seq<Seq<char>>)>)
    ensures
        features_of(gs) == gs.map_values(|e: (Seq<char>, Seq<Seq<char>>)| feature_of(e.0).unwrap()),
    decreases gs.len(),
{
    if gs.len() > 0 {
        lemma_features_of_map(gs.drop_last());
        assert(gs.map_values(|e: (Seq<char>, Seq<Seq<char>>)| feature_of(e.0).unwrap()) =~= gs.drop_last().map_values(
            |e: (Seq<char>, Seq<Seq<char>>)| feature_of(e.0).unwrap(),
        ).push(feature_of(gs.last().0).unwrap()));
    } else {
        assert(gs.map_values(|e: (Seq<char>, Seq<Seq<char>>)| feature_of(e.0).unwrap()) =~= Seq::<Seq<char>>::empty());
    }
}


proof fn lemma_all_aliases_concat(a: Seq<(Seq<char>, Seq<Seq<char>>)>, b: Seq<(Seq<char>, Seq<Seq<char>>)>, family: Seq<char>, pkgs: Seq<(Seq<char>, Seq<char>)>)
    ensures
        all_aliases(a + b, family, pkgs) == all_aliases(a, family, pkgs) + all_aliases(b, family, pkgs),
    decreases b.len(),
{
    if b.len() == 0 {
        assert(a + b =~= a);
        assert(all_aliases(a, family, pkgs) + all_aliases(b, family, pkgs) =~= all_aliases(a, family, pkgs));
    } else {
        lemma_all_aliases_concat(a, b.drop_last(), family, pkgs);
        assert((a + b).drop_last() =~= a + b.drop_last());
        assert((a + b).last() == b.last());
        assert(all_aliases(a + b, family, pkgs) =~= all_aliases(a, family, pkgs) + all_aliases(b, family, pkgs));
    }
}

/// The alias lines of a map, as a multiset, depend on the multiset of its
/// entries alone.
pub proof fn lemma_aliases_order_free(gs1: Seq<(Seq<char>, Seq<Seq<char>>)>, gs2: Seq<(Seq<char>, Seq<Seq<char>>)>, family: Seq<char>, pkgs: Seq<(Seq<char>, Seq<char>)>)
    requires
        gs1.to_multiset() == gs2.to_multiset(),
    ensures
        all_aliases(gs1, family, pkgs).to_multiset() == all_aliases(gs2, family, pkgs).to_multiset(),
    decreases gs1.len(),
{
    broadcast use vstd::seq_lib::group_to_multiset_ensures;
    broadcast use vstd::seq_lib::lemma_multiset_commutative;
    vstd::seq_lib::to_multiset_len(gs1);
    vstd::seq_lib::to_multiset_len(gs2);
    if gs1.len() == 0 {
        assert(gs2 =~= Seq::<(Seq<char>, Seq<Seq<char>>)>::empty());
    } else {
        let x = gs1.last();
        let p1 = gs1.drop_last();
        assert(gs1 =~= p1.push(x));
        assert(gs2.to_multiset().count(x) > 0);
        assert(gs2.contains(x));
        let k = choose|k: int| 0 <= k < gs2.len() && gs2[k] == x;
        let p2 = gs2.remove(k);
        assert(p1.to_multiset() =~= gs1.to_multiset().remove(x));
        assert(p2.to_multiset() =~= gs2.to_multiset().remove(x));
        lemma_aliases_order_free(p1, p2, family, pkgs);
        let lx = all_aliases(seq![x], family, pkgs);
        assert(seq![x].drop_last() =~= Seq::<(Seq<char>, Seq<Seq<char>>)>::empty());
        lemma_all_aliases_concat(p1, seq![x], family, pkgs);
        assert(p1 + seq![x] =~= gs1);
        let pre = gs2.take(k);
        let post = gs2.skip(k + 1);
        assert(gs2 =~= (pre + seq![x]) + post);
        assert(p2 =~= pre + post);
        lemma_all_aliases_concat(pre + seq![x], post, family, pkgs);
        lemma_all_aliases_concat(pre, seq![x], family, pkgs);
        lemma_all_aliases_concat(pre, post, family, pkgs);
        let a = all_aliases(pre, family, pkgs);
        let b = all_aliases(post, family, pkgs);
        assert(all_aliases(gs2, family, pkgs).to_multiset() =~= a.to_multiset().add(lx.to_multiset()).add(b.to_multiset()));
        assert(all_aliases(p2, family, pkgs).to_multiset() =~= a.to_multiset().add(b.to_multiset()));
        assert(all_aliases(gs1, family, pkgs).to_multiset() =~= all_aliases(p1, family, pkgs).to_multiset().add(lx.to_multiset()));
    }
}

/// The flag list of a map does not depend on the order of its entries.
pub proof fn lemma_features_text_order_free(gs1: Seq<(Seq<char>, Seq<Seq<char>>)>, gs2: Seq<(Seq<char>, Seq<Seq<char>>)>, pkgs: Seq<(Seq<char>, Seq<char>)>, family: Seq<char>)
    requires
        gs1.to_multiset() == gs2.to_multiset(),
    ensures
        features_text(gs1, pkgs, family) == features_text(gs2, pkgs, family),
{
    lemma_features_of_order_free(gs1, gs2);
    lemma_aliases_order_free(gs1, gs2, family, pkgs);
    lemma_features_order_free(gs1, gs2, pkgs, family);
}

} // verus!
