//! The query listing: for each selected stem and each of its devices, one line
//! per (alternate function, role) with the pins that carry it.

use vstd::prelude::*;
use crate::order::{set_alnum, sorted_set, strs};
use crate::ingest::{notice_views, Notice, NoticeView};
use crate::render::{block_views, chosen, version_notices, version_warnings, concat_blocks, decimal, lemma_chosen_prefix, is_chosen, decimal_string, io_name_of, pad_string, pad_to, sorted_blocks};
use crate::text::{join, push_joined};
use crate::tree::{leaf_entries, selection_view, stem_choice, AfTree, Leaf, LeafKey, Mcus};

verus! {

/// The first index of `s` whose key is `k`.
pub open spec fn first_with<K, V>(s: Seq<(K, V)>, k: K) -> int {
    choose|i: int| 0 <= i < s.len() && #[trigger] s[i].0 == k && forall|j: int| 0 <= j < i ==> #[trigger] s[j].0 != k
}

pub open spec fn has_with<K, V>(s: Seq<(K, V)>, k: K) -> bool {
    exists|i: int| 0 <= i < s.len() && #[trigger] s[i].0 == k
}

proof fn lemma_first_with<K, V>(s: Seq<(K, V)>, k: K, i: int)
    requires
        0 <= i < s.len(),
        s[i].0 == k,
        forall|j: int| 0 <= j < i ==> #[trigger] s[j].0 != k,
    ensures
        first_with(s, k) == i,
        has_with(s, k),
{
    let c = first_with(s, k);
    assert(0 <= c < s.len() && s[c].0 == k && forall|j: int| 0 <= j < c ==> #[trigger] s[j].0 != k);
    if c < i {
        assert(s[c].0 != k);
    } else if i < c {
        assert(s[i].0 != k);
    }
}

/// Key of a listing line: stem, device, alternate function, role.
pub open spec fn row_key(k: LeafKey) -> Mcus {
    seq![k.0.0, k.0.1, k.1.0, k.1.1]
}

/// A pin of a line: its sort key (port, number) and its label (`PA9 `).
pub open spec fn pin_entry(k: LeafKey) -> (Mcus, Seq<char>) {
    (seq![k.2.0, decimal(k.2.1 as nat)], k.2.0 + pad_to(decimal(k.2.1 as nat), 2))
}

pub type Row = (Mcus, Seq<(Mcus, Seq<char>)>);

pub open spec fn add_pin(ps: Seq<(Mcus, Seq<char>)>, e: (Mcus, Seq<char>)) -> Seq<(Mcus, Seq<char>)> {
    if has_with(ps, e.0) {
        ps
    } else {
        ps.push(e)
    }
}

/// The lines of the leaves `es` whose stem is in `stems`, each with its distinct
/// pins, in order of first occurrence.
pub open spec fn rows_of(es: Seq<(LeafKey, Mcus)>, stems: Seq<Seq<char>>) -> Seq<Row>
    decreases es.len(),
{
    if es.len() == 0 {
        Seq::empty()
    } else {
        let prev = rows_of(es.drop_last(), stems);
        let k = es.last().0;
        if !stems.contains(k.0.0) {
            prev
        } else {
            row_step(prev, k)
        }
    }
}

/// The pin of key path `k` added to its line, or a new line for it.
pub open spec fn row_step(prev: Seq<Row>, k: LeafKey) -> Seq<Row> {
    if has_with(prev, row_key(k)) {
        let j = first_with(prev, row_key(k));
        prev.update(j, (row_key(k), add_pin(prev[j].1, pin_entry(k))))
    } else {
        prev.push((row_key(k), seq![pin_entry(k)]))
    }
}

pub open spec fn pin_labels(ps: Seq<(Mcus, Seq<char>)>) -> Seq<Seq<char>> {
    ps.map_values(|p: (Mcus, Seq<char>)| p.1)
}

/// A listing line: `    AF7 : PinTx      == TX       =[ PA9  | PB6 `.
pub open spec fn row_line(rk: Mcus, pins: Seq<(Mcus, Seq<char>)>) -> Seq<char> {
    "    "@ + pad_to(rk[2], 4) + ": "@ + pad_to(io_name_of(rk[3]), 10) + " == "@ + pad_to(rk[3], 8)
        + " =[ "@ + join(pin_labels(sorted_blocks(pins)), " | "@) + "\n"@
}

/// Each of `xs` on a line of its own after `pre`.
pub open spec fn indented(xs: Seq<Seq<char>>, pre: Seq<char>) -> Seq<char>
    decreases xs.len(),
{
    if xs.len() == 0 {
        Seq::empty()
    } else {
        indented(xs.drop_last(), pre) + pre + xs.last() + "\n"@
    }
}

/// The revision group of a rendered leaf, its revision and its models.
pub open spec fn group_text(k: LeafKey, ms: Mcus) -> Seq<char> {
    "        gpio-group: "@ + k.3.0 + "\n        gpio-version: "@ + k.3.1 + "\n"@ + indented(set_alnum(ms), "          "@)
}

/// The rendered leaves of line `rk` at pin `pk`, keyed by revision group.
pub open spec fn group_entries(es: Seq<(LeafKey, Mcus)>, rk: Mcus, pk: Mcus) -> Seq<(Mcus, Seq<char>)>
    decreases es.len(),
{
    if es.len() == 0 {
        Seq::empty()
    } else {
        let prev = group_entries(es.drop_last(), rk, pk);
        let i = es.len() - 1;
        if chosen(es, i) && row_key(es[i].0) == rk && pin_entry(es[i].0).0 == pk {
            prev.push((seq![es[i].0.3.0], group_text(es[i].0, es[i].1)))
        } else {
            prev
        }
    }
}

/// Each pin of a line with the revision groups under it.
pub open spec fn pin_blocks(es: Seq<(LeafKey, Mcus)>, rk: Mcus, ps: Seq<(Mcus, Seq<char>)>) -> Seq<char>
    decreases ps.len(),
{
    if ps.len() == 0 {
        Seq::empty()
    } else {
        let p = ps.last().0;
        pin_blocks(es, rk, ps.drop_last()) + "      "@ + p[0] + p[1] + "\n"@ + concat_blocks(
            sorted_blocks(group_entries(es, rk, p)),
        )
    }
}

/// A verbose listing line: the line's head, then its pins in order, each with
/// its revision groups.
pub open spec fn row_line_verbose(es: Seq<(LeafKey, Mcus)>, rk: Mcus, pins: Seq<(Mcus, Seq<char>)>) -> Seq<char> {
    "    "@ + pad_to(rk[2], 4) + ": "@ + io_name_of(rk[3]) + " ("@ + rk[3] + ")\n"@ + pin_blocks(
        es,
        rk,
        sorted_blocks(pins),
    )
}

pub open spec fn row_blocks(rows: Seq<Row>) -> Seq<(Mcus, Seq<char>)> {
    rows.map_values(|r: Row| (r.0, row_line(r.0, r.1)))
}

pub open spec fn row_blocks_verbose(es: Seq<(LeafKey, Mcus)>, rows: Seq<Row>) -> Seq<(Mcus, Seq<char>)> {
    rows.map_values(|r: Row| (r.0, row_line_verbose(es, r.0, r.1)))
}

/// The sorted lines, each stem and each device named once above its lines.
pub open spec fn query_lines(rows: Seq<(Mcus, Seq<char>)>) -> Seq<char>
    decreases rows.len(),
{
    if rows.len() == 0 {
        Seq::empty()
    } else {
        let n = rows.len();
        let r = rows.last();
        let new_stem = n == 1 || rows[n - 2].0[0] != r.0[0];
        let new_dev = new_stem || rows[n - 2].0[1] != r.0[1];
        query_lines(rows.drop_last()) + (if new_stem {
            r.0[0] + "\n"@
        } else {
            Seq::empty()
        }) + (if new_dev {
            "  "@ + r.0[1] + "\n"@
        } else {
            Seq::empty()
        }) + r.1
    }
}

/// The listing of the leaves `es` restricted to `stems`, verbose or not.
pub open spec fn query_text(es: Seq<(LeafKey, Mcus)>, stems: Seq<Seq<char>>, verbose: bool) -> Seq<char> {
    if verbose {
        query_lines(sorted_blocks(row_blocks_verbose(es, rows_of(es, stems))))
    } else {
        query_lines(sorted_blocks(row_blocks(rows_of(es, stems))))
    }
}

fn push_indented(out: &mut String, xs: &Vec<String>, pre: &str)
    ensures
        final(out)@ == old(out)@ + indented(strs(xs@), pre@),
{
    let ghost start = out@;
    let mut i: usize = 0;
    while i < xs.len()
        invariant
            i <= xs.len(),
            out@ == start + indented(strs(xs@).take(i as int), pre@),
        decreases xs.len() - i,
    {
        proof {
            assert(strs(xs@).take(i + 1).drop_last() =~= strs(xs@).take(i as int));
        }
        out.append(pre);
        out.append(xs[i].as_str());
        out.append("\n");
        i = i + 1;
        assert(out@ =~= start + indented(strs(xs@).take(i as int), pre@));
    }
    assert(strs(xs@).take(xs.len() as int) =~= strs(xs@));
}

fn group_entries_exec(leaves: &Vec<Leaf>, rk: &Vec<String>, pk: &Vec<String>) -> (r: Vec<(Vec<String>, String)>)
    ensures
        block_views(r@) == group_entries(leaf_entries(leaves@), strs(rk@), strs(pk@)),
        forall|a: int| 0 <= a < r.len() ==> (#[trigger] r@[a]).0@.len() == 1,
{
    let ghost es = leaf_entries(leaves@);
    let mut r: Vec<(Vec<String>, String)> = Vec::new();
    let mut i: usize = 0;
    assert(block_views(r@) =~= group_entries(es.take(0), strs(rk@), strs(pk@)));
    while i < leaves.len()
        invariant
            i <= leaves.len(),
            es == leaf_entries(leaves@),
            block_views(r@) == group_entries(es.take(i as int), strs(rk@), strs(pk@)),
            forall|a: int| 0 <= a < r.len() ==> (#[trigger] r@[a]).0@.len() == 1,
        decreases leaves.len() - i,
    {
        proof {
            assert(es.take(i + 1).drop_last() =~= es.take(i as int));
            lemma_chosen_prefix(es, i as int);
        }
        let l = &leaves[i];
        let key = vec![l.stem.clone(), l.device.clone(), l.af.clone(), l.io.clone()];
        let pin = vec![l.port.clone(), decimal_string(l.number)];
        assert(strs(key@) =~= row_key(l.key()));
        assert(strs(pin@) =~= pin_entry(l.key()).0);
        if is_chosen(leaves, i) && crate::tree::same_strs(&key, rk) && crate::tree::same_strs(&pin, pk) {
            let mut t = String::from_str("        gpio-group: ");
            t.append(l.group.as_str());
            t.append("\n        gpio-version: ");
            t.append(l.version.as_str());
            t.append("\n");
            let ms = sorted_set(&l.mcus);
            push_indented(&mut t, &ms, "          ");
            let e = (vec![l.group.clone()], t);
            assert(strs(e.0@) =~= seq![l.group@]);
            assert(e.0@.len() == 1);
            let ghost before = block_views(r@);
            r.push(e);
            assert(block_views(r@) =~= before.push((strs(e.0@), e.1@)));
        }
        i = i + 1;
    }
    assert(es.take(leaves.len() as int) =~= es);
    r
}

fn row_line_verbose_exec(leaves: &Vec<Leaf>, key: &Vec<String>, pins: &Vec<(Vec<String>, String)>) -> (r: String)
    requires
        key.len() == 4,
        forall|a: int| 0 <= a < pins.len() ==> (#[trigger] pins@[a]).0@.len() == 2,
    ensures
        r@ == row_line_verbose(leaf_entries(leaves@), strs(key@), block_views(pins@)),
{
    let ghost es = leaf_entries(leaves@);
    let mut out = String::from_str("    ");
    let mut af = key[2].clone();
    pad_string(&mut af, 4);
    out.append(af.as_str());
    out.append(": ");
    let mut ion = String::from_str("Pin");
    let pc = crate::text::pascal_case(key[3].as_str());
    ion.append(pc.as_str());
    out.append(ion.as_str());
    out.append(" (");
    out.append(key[3].as_str());
    out.append(")\n");
    let ghost head = out@;
    let sorted = sort_pairs(pins, Ghost(2));
    let ghost sv = block_views(sorted@);
    let mut i: usize = 0;
    assert(sv.take(0) =~= Seq::<(Mcus, Seq<char>)>::empty());
    while i < sorted.len()
        invariant
            i <= sorted.len(),
            sv == block_views(sorted@),
            forall|a: int| 0 <= a < sorted.len() ==> (#[trigger] sorted@[a]).0@.len() == 2,
            es == leaf_entries(leaves@),
            out@ == head + pin_blocks(es, strs(key@), sv.take(i as int)),
        decreases sorted.len() - i,
    {
        proof {
            assert(sv.take(i + 1).drop_last() =~= sv.take(i as int));
        }
        let p = &sorted[i].0;
        let ghost before = out@;
        out.append("      ");
        out.append(p[0].as_str());
        out.append(p[1].as_str());
        out.append("\n");
        proof {
            assert(sv[i as int].0 == strs(p@));
            assert(sv.take(i + 1).last() == sv[i as int]);
        }
        let entries = group_entries_exec(leaves, key, p);
        let ordered = sort_pairs(&entries, Ghost(1));
        let ghost ov = block_views(ordered@);
        let mut j: usize = 0;
        let ghost mid = out@;
        assert(mid == before + "      "@ + p@[0]@ + p@[1]@ + "\n"@);
        assert(ov.take(0) =~= Seq::<(Mcus, Seq<char>)>::empty());
        while j < ordered.len()
            invariant
                j <= ordered.len(),
                ov == block_views(ordered@),
                ov == sorted_blocks(group_entries(es, strs(key@), strs(p@))),
                out@ == mid + concat_blocks(ov.take(j as int)),
            decreases ordered.len() - j,
        {
            proof {
                assert(ov.take(j + 1).drop_last() =~= ov.take(j as int));
            }
            out.append(ordered[j].1.as_str());
            j = j + 1;
        }
        assert(ov.take(ordered.len() as int) =~= ov);
        proof {
            let pp = sv[i as int].0;
            assert(pp[0] == p@[0]@ && pp[1] == p@[1]@);
            assert(ov == sorted_blocks(group_entries(es, strs(key@), pp)));
            assert(pin_blocks(es, strs(key@), sv.take(i + 1)) == pin_blocks(es, strs(key@), sv.take(i as int)) + "      "@ + pp[0] + pp[1] + "\n"@ + concat_blocks(sorted_blocks(group_entries(es, strs(key@), pp))));
        }
        i = i + 1;
        assert(out@ =~= head + pin_blocks(es, strs(key@), sv.take(i as int)));
    }
    assert(sv.take(sorted.len() as int) =~= sv);
    out
}

pub open spec fn row_views(v: Seq<(Vec<String>, Vec<(Vec<String>, String)>)>) -> Seq<Row> {
    v.map_values(|r: (Vec<String>, Vec<(Vec<String>, String)>)| (strs(r.0@), block_views(r.1@)))
}

fn find_key<V>(v: &Vec<(Vec<String>, V)>, k: &Vec<String>) -> (r: Option<usize>)
    ensures
        r matches Some(j) ==> j < v.len() && strs(v@[j as int].0@) == strs(k@) && forall|i: int|
            0 <= i < j ==> strs(#[trigger] v@[i].0@) != strs(k@),
        r is None ==> forall|i: int| 0 <= i < v.len() ==> strs(#[trigger] v@[i].0@) != strs(k@),
{
    let mut j: usize = 0;
    while j < v.len()
        invariant
            j <= v.len(),
            forall|i: int| 0 <= i < j ==> strs(#[trigger] v@[i].0@) != strs(k@),
        decreases v.len() - j,
    {
        if crate::tree::same_strs(&v[j].0, k) {
            return Some(j);
        }
        j = j + 1;
    }
    None
}

fn clone_pins(v: &Vec<(Vec<String>, String)>) -> (r: Vec<(Vec<String>, String)>)
    ensures
        block_views(r@) == block_views(v@),
{
    let mut r: Vec<(Vec<String>, String)> = Vec::new();
    let mut i: usize = 0;
    while i < v.len()
        invariant
            i <= v.len(),
            block_views(r@) == block_views(v@).take(i as int),
        decreases v.len() - i,
    {
        let e = (crate::order::clone_strs(&v[i].0), v[i].1.clone());
        let ghost before = r@;
        r.push(e);
        assert(block_views(r@) =~= block_views(before).push((strs(e.0@), e.1@)));
        i = i + 1;
        assert(block_views(r@) =~= block_views(v@).take(i as int));
    }
    assert(block_views(v@).take(v.len() as int) =~= block_views(v@));
    r
}

fn add_row(rows: &mut Vec<(Vec<String>, Vec<(Vec<String>, String)>)>, l: &Leaf)
    requires
        forall|a: int| 0 <= a < old(rows).len() ==> (#[trigger] old(rows)@[a]).0@.len() == 4,
        forall|a: int, b: int| 0 <= a < old(rows).len() && 0 <= b < old(rows)@[a].1.len() ==> (#[trigger] old(rows)@[a].1@[b]).0@.len() == 2,
    ensures
        row_views(final(rows)@) == row_step(row_views(old(rows)@), l.key()),
        forall|a: int| 0 <= a < final(rows).len() ==> (#[trigger] final(rows)@[a]).0@.len() == 4,
        forall|a: int, b: int| 0 <= a < final(rows).len() && 0 <= b < final(rows)@[a].1.len() ==> (#[trigger] final(rows)@[a].1@[b]).0@.len() == 2,
{
    let ghost k = l.key();
    let ghost rv = row_views(rows@);
    let key = vec![l.stem.clone(), l.device.clone(), l.af.clone(), l.io.clone()];
    assert(strs(key@) =~= row_key(k));
    let mut label = l.port.clone();
    let mut d = decimal_string(l.number);
    let pk = vec![l.port.clone(), decimal_string(l.number)];
    pad_string(&mut d, 2);
    label.append(d.as_str());
    let entry = (pk, label);
    assert(strs(entry.0@) =~= pin_entry(k).0);
    match find_key(&rows, &key) {
        Some(j) => {
            proof {
                assert forall|a: int| 0 <= a < j implies #[trigger] rv[a].0 != row_key(k) by {
                    assert(rv[a].0 == strs(rows@[a].0@));
                }
                lemma_first_with(rv, row_key(k), j as int);
            }
            let mut pins = clone_pins(&rows[j].1);
            let ghost pv = block_views(pins@);
            assert forall|b: int| 0 <= b < pins.len() implies (#[trigger] pins@[b]).0@.len() == 2 by {
                assert(pv[b].0 == strs(pins@[b].0@));
                assert(block_views(rows@[j as int].1@)[b].0 == strs(rows@[j as int].1@[b].0@));
                assert(rows@[j as int].1@[b].0@.len() == 2);
            }
            match find_key(&pins, &entry.0) {
                Some(q) => {
                    proof {
                        assert(pv[q as int].0 == pin_entry(k).0);
                        assert(has_with(pv, pin_entry(k).0));
                    }
                },
                None => {
                    proof {
                        assert(!has_with(pv, pin_entry(k).0)) by {
                            if has_with(pv, pin_entry(k).0) {
                                let q = choose|q: int| 0 <= q < pv.len() && #[trigger] pv[q].0 == pin_entry(k).0;
                                assert(strs(pins@[q].0@) == pv[q].0);
                            }
                        }
                    }
                    pins.push(entry);
                    assert(block_views(pins@) =~= pv.push(pin_entry(k)));
                },
            }
            let row = (key, pins);
            let ghost rows0 = rows@;
            rows.set(j, row);
            assert forall|a: int, b: int| 0 <= a < rows.len() && 0 <= b < rows@[a].1.len() implies (#[trigger] rows@[a].1@[b]).0@.len() == 2 by {
                if a != j {
                    assert(rows@[a] == rows0[a]);
                }
            }
            assert(row_views(rows@) =~= rv.update(j as int, (row_key(k), add_pin(rv[j as int].1, pin_entry(k)))));
        },
        None => {
            proof {
                assert(!has_with(rv, row_key(k))) by {
                    if has_with(rv, row_key(k)) {
                        let q = choose|q: int| 0 <= q < rv.len() && #[trigger] rv[q].0 == row_key(k);
                        assert(strs(rows@[q].0@) == rv[q].0);
                    }
                }
            }
            let row = (key, vec![entry]);
            let ghost rows0 = rows@;
            rows.push(row);
            assert forall|a: int, b: int| 0 <= a < rows.len() && 0 <= b < rows@[a].1.len() implies (#[trigger] rows@[a].1@[b]).0@.len() == 2 by {
                if a < rows0.len() {
                    assert(rows@[a] == rows0[a]);
                }
            }
            assert(block_views(row.1@) =~= seq![pin_entry(k)]);
            assert(row_views(rows@) =~= rv.push((row_key(k), seq![pin_entry(k)])));
        },
    }
}

fn rows_exec(leaves: &Vec<Leaf>, stems: &Vec<String>) -> (r: Vec<(Vec<String>, Vec<(Vec<String>, String)>)>)
    ensures
        row_views(r@) == rows_of(leaf_entries(leaves@), strs(stems@)),
        forall|a: int| 0 <= a < r.len() ==> (#[trigger] r@[a]).0@.len() == 4,
        forall|a: int, b: int| 0 <= a < r.len() && 0 <= b < r@[a].1.len() ==> (#[trigger] r@[a].1@[b]).0@.len() == 2,
{
    let ghost es = leaf_entries(leaves@);
    let mut rows: Vec<(Vec<String>, Vec<(Vec<String>, String)>)> = Vec::new();
    let mut i: usize = 0;
    assert(row_views(rows@) =~= rows_of(es.take(0), strs(stems@)));
    while i < leaves.len()
        invariant
            i <= leaves.len(),
            es == leaf_entries(leaves@),
            row_views(rows@) == rows_of(es.take(i as int), strs(stems@)),
            forall|a: int| 0 <= a < rows.len() ==> (#[trigger] rows@[a]).0@.len() == 4,
            forall|a: int, b: int| 0 <= a < rows.len() && 0 <= b < rows@[a].1.len() ==> (#[trigger] rows@[a].1@[b]).0@.len() == 2,
        decreases leaves.len() - i,
    {
        proof {
            assert(es.take(i + 1).drop_last() =~= es.take(i as int));
        }
        let l = &leaves[i];
        if crate::order::contains_str(stems, l.stem.as_str()) {
            add_row(&mut rows, l);
        }
        i = i + 1;
    }
    assert(es.take(leaves.len() as int) =~= es);
    rows
}

fn sort_pairs(v: &Vec<(Vec<String>, String)>, Ghost(n): Ghost<nat>) -> (r: Vec<(Vec<String>, String)>)
    requires
        forall|a: int| 0 <= a < v.len() ==> (#[trigger] v@[a]).0@.len() == n,
    ensures
        block_views(r@) == sorted_blocks(block_views(v@)),
        forall|a: int| 0 <= a < r.len() ==> (#[trigger] r@[a]).0@.len() == n,
{
    let ghost pv = block_views(v@);
    let mut r: Vec<(Vec<String>, String)> = Vec::new();
    let mut i: usize = 0;
    while i < v.len()
        invariant
            i <= v.len(),
            pv == block_views(v@),
            block_views(r@) == sorted_blocks(pv.take(i as int)),
            forall|a: int| 0 <= a < v.len() ==> (#[trigger] v@[a]).0@.len() == n,
            forall|a: int| 0 <= a < r.len() ==> (#[trigger] r@[a]).0@.len() == n,
        decreases v.len() - i,
    {
        proof {
            assert(pv.take(i + 1).drop_last() =~= pv.take(i as int));
        }
        let e = (crate::order::clone_strs(&v[i].0), v[i].1.clone());
        assert(strs(e.0@).len() == strs(v@[i as int].0@).len());
        let ghost r0 = r@;
        crate::render::insert_block_exec(&mut r, e);
        assert forall|a: int| 0 <= a < r.len() implies (#[trigger] r@[a]).0@.len() == n by {
            if r@[a] != e {
                let q = choose|q: int| 0 <= q < r0.len() && r0[q] == r@[a];
                assert(r0[q].0@.len() == n);
            }
        }
        i = i + 1;
    }
    assert(pv.take(v.len() as int) =~= pv);
    r
}

fn row_line_exec(key: &Vec<String>, pins: &Vec<(Vec<String>, String)>) -> (r: String)
    requires
        key.len() == 4,
        forall|a: int| 0 <= a < pins.len() ==> (#[trigger] pins@[a]).0@.len() == 2,
    ensures
        r@ == row_line(strs(key@), block_views(pins@)),
{
    let mut out = String::from_str("    ");
    let mut af = key[2].clone();
    pad_string(&mut af, 4);
    out.append(af.as_str());
    out.append(": ");
    let mut ion = String::from_str("Pin");
    let pc = crate::text::pascal_case(key[3].as_str());
    ion.append(pc.as_str());
    pad_string(&mut ion, 10);
    out.append(ion.as_str());
    out.append(" == ");
    let mut io = key[3].clone();
    pad_string(&mut io, 8);
    out.append(io.as_str());
    out.append(" =[ ");
    let sorted = sort_pairs(pins, Ghost(2));
    let mut labels: Vec<String> = Vec::new();
    let mut i: usize = 0;
    while i < sorted.len()
        invariant
            i <= sorted.len(),
            labels@.map_values(|p: String| p@) == pin_labels(block_views(sorted@)).take(i as int),
        decreases sorted.len() - i,
    {
        let ghost before = labels@;
        labels.push(sorted[i].1.clone());
        assert(labels@.map_values(|p: String| p@) =~= before.map_values(|p: String| p@).push(sorted@[i as int].1@));
        i = i + 1;
        assert(labels@.map_values(|p: String| p@) =~= pin_labels(block_views(sorted@)).take(i as int));
    }
    assert(pin_labels(block_views(sorted@)).take(sorted.len() as int) =~= pin_labels(block_views(sorted@)));
    push_joined(&mut out, &labels, " | ");
    out.append("\n");
    out
}

/// The listing text, and in verbose mode a notice for each revision left out
/// because an earlier one of its group stands at its key path.
pub struct Listing {
    pub text: String,
    pub notices: Vec<Notice>,
}

/// The listing of the stems of `af_tree` that `af_stem_selection` selects, as
/// [`query_text`] says; a selection of stems the tree lacks is an error.
pub fn display_af_tree(af_tree: &AfTree, af_stem_selection: &Option<Vec<&str>>, verbose: bool) -> (r: Result<Listing, String>)
    ensures
        match (r, stem_choice(af_tree.leaves(), selection_view(*af_stem_selection))) {
            (Ok(t), Ok(stems)) => t.text@ == query_text(af_tree.leaves(), stems, verbose) && notice_views(t.notices@) == if verbose {
                version_notices(af_tree.leaves(), stems)
            } else {
                Seq::<NoticeView>::empty()
            },
            (Err(e), Err(m)) => e@ == m,
            _ => false,
        },
{
    let stems = match af_tree.iter(af_stem_selection) {
        Ok(s) => s,
        Err(e) => {
            return Err(e);
        },
    };
    let leaves = af_tree.leaf_list();
    let rows = rows_exec(leaves, &stems);
    let ghost rb = if verbose {
        row_blocks_verbose(leaf_entries(leaves@), row_views(rows@))
    } else {
        row_blocks(row_views(rows@))
    };
    let mut blocks: Vec<(Vec<String>, String)> = Vec::new();
    let mut i: usize = 0;
    while i < rows.len()
        invariant
            i <= rows.len(),
            rb == if verbose {
                row_blocks_verbose(leaf_entries(leaves@), row_views(rows@))
            } else {
                row_blocks(row_views(rows@))
            },
            forall|a: int| 0 <= a < rows.len() ==> (#[trigger] rows@[a]).0@.len() == 4,
            forall|a: int, b: int| 0 <= a < rows.len() && 0 <= b < rows@[a].1.len() ==> (#[trigger] rows@[a].1@[b]).0@.len() == 2,
            block_views(blocks@) == sorted_blocks(rb.take(i as int)),
            forall|a: int| 0 <= a < blocks.len() ==> (#[trigger] blocks@[a]).0@.len() == 4,
        decreases rows.len() - i,
    {
        proof {
            assert(rb.take(i + 1).drop_last() =~= rb.take(i as int));
        }
        let line = if verbose {
            row_line_verbose_exec(leaves, &rows[i].0, &rows[i].1)
        } else {
            row_line_exec(&rows[i].0, &rows[i].1)
        };
        let e = (crate::order::clone_strs(&rows[i].0), line);
        assert(strs(e.0@).len() == strs(rows@[i as int].0@).len());
        let ghost b0 = blocks@;
        crate::render::insert_block_exec(&mut blocks, e);
        assert forall|a: int| 0 <= a < blocks.len() implies (#[trigger] blocks@[a]).0@.len() == 4 by {
            if blocks@[a] != e {
                let q = choose|q: int| 0 <= q < b0.len() && b0[q] == blocks@[a];
                assert(b0[q].0@.len() == 4);
            }
        }
        i = i + 1;
    }
    assert(rb.take(rows.len() as int) =~= rb);
    let mut out = String::new();
    let ghost bs = block_views(blocks@);
    let mut j: usize = 0;
    assert(bs.take(0) =~= Seq::<(Mcus, Seq<char>)>::empty());
    while j < blocks.len()
        invariant
            j <= blocks.len(),
            bs == block_views(blocks@),
            forall|a: int| 0 <= a < blocks.len() ==> (#[trigger] blocks@[a]).0@.len() == 4,
            out@ == query_lines(bs.take(j as int)),
        decreases blocks.len() - j,
    {
        proof {
            assert(bs.take(j + 1).drop_last() =~= bs.take(j as int));
        }
        let b = &blocks[j];
        let new_stem = j == 0 || blocks[j - 1].0[0] != b.0[0];
        let new_dev = new_stem || blocks[j - 1].0[1] != b.0[1];
        if new_stem {
            out.append(b.0[0].as_str());
            out.append("\n");
        }
        if new_dev {
            out.append("  ");
            out.append(b.0[1].as_str());
            out.append("\n");
        }
        out.append(b.1.as_str());
        j = j + 1;
    }
    assert(bs.take(blocks.len() as int) =~= bs);
    let notices = if verbose {
        version_warnings(leaves, &stems)
    } else {
        let none: Vec<Notice> = Vec::new();
        assert(notice_views(none@) =~= Seq::<NoticeView>::empty());
        none
    };
    Ok(Listing { text: out, notices })
}

} // verus!
