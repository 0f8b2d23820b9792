//! Rendering of the tree into conditional blocks: for each view (devices,
//! alternate functions, pins, roles, pin implementations) the values are grouped
//! by the exact set of models that support them, and each group becomes one block
//! guarded by that set. Blocks, models and values come in numeric-aware order.

use vstd::prelude::*;
use std::cmp::Ordering;
use crate::group::{bucket, bucket_seq, collect, collect_seq, group_lists, partition, partition_seq, tagged_views, Tagged};
use crate::ingest::{fill_spec, sorted_sources, notice_views, GpioSource, Notice, NoticeKind, NoticeView};
use crate::order::{alnum_order, contains_str, set_alnum, sorted_set, strs, SortedString};
use crate::ident::{field_by, split_by};
use crate::text::{join, lowercase_of, push_wrapped, wrapped, pascal_case, pascal_of, push_char, push_joined, run_len, scan_run, chars_of, to_lowercase, CharClass};
use crate::tree::{leaf_entries, selection_view, stem_choice, AfTree, Leaf, LeafKey, Mcus};

verus! {

pub open spec fn digit_char(d: nat) -> char {
    ((d + 48) as u8) as char
}

/// Decimal digits of `n`.
pub open spec fn decimal(n: nat) -> Seq<char>
    decreases n,
{
    if n < 10 {
        seq![digit_char(n)]
    } else {
        decimal(n / 10).push(digit_char(n % 10))
    }
}

pub fn decimal_string(n: u32) -> (r: String)
    ensures
        r@ == decimal(n as nat),
    decreases n,
{
    if n < 10 {
        let mut r = String::new();
        push_char(&mut r, ((n as u8) + 48) as char);
        assert(r@ =~= decimal(n as nat));
        r
    } else {
        let mut r = decimal_string(n / 10);
        push_char(&mut r, (((n % 10) as u8) + 48) as char);
        r
    }
}

/// `s` followed by spaces up to width `w`.
pub open spec fn pad_to(s: Seq<char>, w: nat) -> Seq<char> {
    if s.len() < w {
        s + Seq::new((w - s.len()) as nat, |i: int| ' ')
    } else {
        s
    }
}

pub fn pad_string(s: &mut String, w: usize)
    ensures
        final(s)@ == pad_to(old(s)@, w as nat),
{
    let n = s.as_str().unicode_len();
    let ghost s0 = s@;
    if n < w {
        let mut k: usize = n;
        while k < w
            invariant
                n == s0.len(),
                n <= k <= w,
                s@ == s0 + Seq::new((k - n) as nat, |i: int| ' '),
            decreases w - k,
        {
            push_char(s, ' ');
            k = k + 1;
            assert(s@ =~= s0 + Seq::new((k - n) as nat, |i: int| ' '));
        }
    }
}

/// The views of the tree that are rendered.
pub enum Aspect {
    Devices,
    AltFunctions,
    Pins,
    Roles,
    Implementations,
}

pub open spec fn pin_name_of(k: LeafKey) -> Seq<char> {
    k.2.0 + decimal(k.2.1 as nat)
}

/// The role interface name of a role: `TX` gives `PinTx`.
pub open spec fn io_name_of(io: Seq<char>) -> Seq<char> {
    "Pin"@ + pascal_of(io)
}

/// The implementation line of a key path: `    PA9  => {AF7 : PinTx<USART1>}`.
pub open spec fn impl_line(k: LeafKey) -> Seq<char> {
    "    "@ + k.2.0 + pad_to(decimal(k.2.1 as nat), 2) + " => {"@ + pad_to(k.1.0, 4) + ": "@
        + io_name_of(k.1.1) + "<"@ + k.0.1 + ">}"@
}

/// The value a key path contributes to a view. A role is its interface name
/// and its role, `PinTx:TX`; its block lists the interface names.
pub open spec fn aspect_value(v: Aspect, k: LeafKey) -> Seq<char> {
    match v {
        Aspect::Devices => k.0.1,
        Aspect::AltFunctions => k.1.0,
        Aspect::Pins => pin_name_of(k),
        Aspect::Roles => io_name_of(k.1.1) + ":"@ + k.1.1,
        Aspect::Implementations => impl_line(k),
    }
}

/// Two key paths that differ in their revision alone.
pub open spec fn same_slot(a: LeafKey, b: LeafKey) -> bool {
    a.0 == b.0 && a.1 == b.1 && a.2 == b.2 && a.3.0 == b.3.0
}

/// Whether leaf `i` is the first of its revision group at its key path: the
/// revision that is rendered.
pub open spec fn chosen(es: Seq<(LeafKey, Mcus)>, i: int) -> bool {
    forall|j: int| 0 <= j < i ==> !same_slot(#[trigger] es[j].0, es[i].0)
}

/// The items of view `v`: for each rendered leaf whose stem is in `stems`, its
/// value with its models, in leaf order.
pub open spec fn items_of(es: Seq<(LeafKey, Mcus)>, stems: Seq<Seq<char>>, v: Aspect) -> Seq<(Seq<char>, Mcus)>
    decreases es.len(),
{
    if es.len() == 0 {
        Seq::empty()
    } else {
        let prev = items_of(es.drop_last(), stems, v);
        let i = es.len() - 1;
        if stems.contains(es[i].0.0.0) && chosen(es, i) {
            prev.push((aspect_value(v, es[i].0), es[i].1))
        } else {
            prev
        }
    }
}

/// A notice for each leaf whose stem is in `stems` and that is not rendered
/// because an earlier revision of its group stands at its key path.
pub open spec fn version_notices(es: Seq<(LeafKey, Mcus)>, stems: Seq<Seq<char>>) -> Seq<NoticeView>
    decreases es.len(),
{
    if es.len() == 0 {
        Seq::empty()
    } else {
        let prev = version_notices(es.drop_last(), stems);
        let i = es.len() - 1;
        if stems.contains(es[i].0.0.0) && !chosen(es, i) {
            prev.push((NoticeKind::MultipleVersions, es[i].0.3.0))
        } else {
            prev
        }
    }
}

pub(crate) proof fn lemma_chosen_prefix(es: Seq<(LeafKey, Mcus)>, i: int)
    requires
        0 <= i < es.len(),
    ensures
        chosen(es.take(i + 1), i) == chosen(es, i),
{
    let pre = es.take(i + 1);
    assert(pre[i] == es[i]);
    if chosen(es, i) {
        assert forall|j: int| 0 <= j < i implies !same_slot(#[trigger] pre[j].0, pre[i].0) by {
            assert(pre[j] == es[j]);
        }
    }
    if chosen(pre, i) {
        assert forall|j: int| 0 <= j < i implies !same_slot(#[trigger] es[j].0, es[i].0) by {
            assert(pre[j] == es[j]);
        }
    }
}

fn same_slot_exec(a: &Leaf, b: &Leaf) -> (r: bool)
    ensures
        r == same_slot(a.key(), b.key()),
{
    a.stem == b.stem && a.device == b.device && a.af == b.af && a.io == b.io && a.port == b.port
        && a.number == b.number && a.group == b.group
}

fn io_name_string(io: &String) -> (r: String)
    ensures
        r@ == io_name_of(io@),
{
    let mut r = String::from_str("Pin");
    let p = pascal_case(io.as_str());
    r.append(p.as_str());
    r
}

fn aspect_value_exec(v: &Aspect, l: &Leaf) -> (r: String)
    ensures
        r@ == aspect_value(*v, l.key()),
{
    match v {
        Aspect::Devices => l.device.clone(),
        Aspect::AltFunctions => l.af.clone(),
        Aspect::Pins => {
            let mut r = l.port.clone();
            let d = decimal_string(l.number);
            r.append(d.as_str());
            r
        },
        Aspect::Roles => {
            let mut r = io_name_string(&l.io);
            r.append(":");
            r.append(l.io.as_str());
            r
        },
        Aspect::Implementations => {
            let mut r = String::from_str("    ");
            r.append(l.port.as_str());
            let mut d = decimal_string(l.number);
            pad_string(&mut d, 2);
            r.append(d.as_str());
            r.append(" => {");
            let mut a = l.af.clone();
            pad_string(&mut a, 4);
            r.append(a.as_str());
            r.append(": ");
            let ion = io_name_string(&l.io);
            r.append(ion.as_str());
            r.append("<");
            r.append(l.device.as_str());
            r.append(">}");
            r
        },
    }
}

pub(crate) fn is_chosen(leaves: &Vec<Leaf>, i: usize) -> (r: bool)
    requires
        i < leaves.len(),
    ensures
        r == chosen(leaf_entries(leaves@), i as int),
{
    let ghost es = leaf_entries(leaves@);
    let mut j: usize = 0;
    while j < i
        invariant
            j <= i < leaves.len(),
            es == leaf_entries(leaves@),
            forall|k: int| 0 <= k < j ==> !same_slot(#[trigger] es[k].0, es[i as int].0),
        decreases i - j,
    {
        if same_slot_exec(&leaves[j], &leaves[i]) {
            proof {
                assert(es[j as int].0 == leaves@[j as int].key());
                assert(es[i as int].0 == leaves@[i as int].key());
                assert(same_slot(es[j as int].0, es[i as int].0));
            }
            return false;
        }
        j = j + 1;
    }
    true
}

/// The items of view `v` of `leaves` restricted to `stems`, as [`items_of`] says.
pub fn view_items(leaves: &Vec<Leaf>, stems: &Vec<String>, v: &Aspect) -> (r: Vec<Tagged>)
    ensures
        tagged_views(r@) == items_of(leaf_entries(leaves@), strs(stems@), *v),
{
    let ghost es = leaf_entries(leaves@);
    let mut r: Vec<Tagged> = Vec::new();
    let mut i: usize = 0;
    assert(tagged_views(r@) =~= items_of(es.take(0), strs(stems@), *v));
    while i < leaves.len()
        invariant
            i <= leaves.len(),
            es == leaf_entries(leaves@),
            tagged_views(r@) == items_of(es.take(i as int), strs(stems@), *v),
        decreases leaves.len() - i,
    {
        let ghost pre = es.take(i + 1);
        proof {
            assert(pre.drop_last() =~= es.take(i as int));
            lemma_chosen_prefix(es, i as int);
        }
        let l = &leaves[i];
        if contains_str(stems, l.stem.as_str()) && is_chosen(leaves, i) {
            let t = Tagged { value: aspect_value_exec(v, l), mcus: crate::order::clone_strs(&l.mcus) };
            let ghost before = r@;
            r.push(t);
            assert(tagged_views(r@) =~= tagged_views(before).push(t.pair()));
        }
        i = i + 1;
    }
    assert(es.take(leaves.len() as int) =~= es);
    r
}

/// The notices of leaves that are not rendered, as [`version_notices`] says.
pub fn version_warnings(leaves: &Vec<Leaf>, stems: &Vec<String>) -> (r: Vec<Notice>)
    ensures
        notice_views(r@) == version_notices(leaf_entries(leaves@), strs(stems@)),
{
    let ghost es = leaf_entries(leaves@);
    let mut r: Vec<Notice> = Vec::new();
    let mut i: usize = 0;
    assert(notice_views(r@) =~= version_notices(es.take(0), strs(stems@)));
    while i < leaves.len()
        invariant
            i <= leaves.len(),
            es == leaf_entries(leaves@),
            notice_views(r@) == version_notices(es.take(i as int), strs(stems@)),
        decreases leaves.len() - i,
    {
        let ghost pre = es.take(i + 1);
        proof {
            assert(pre.drop_last() =~= es.take(i as int));
            lemma_chosen_prefix(es, i as int);
        }
        let l = &leaves[i];
        if contains_str(stems, l.stem.as_str()) && !is_chosen(leaves, i) {
            let n = Notice { kind: NoticeKind::MultipleVersions, subject: l.group.clone() };
            let ghost before = r@;
            r.push(n);
            assert(notice_views(r@) =~= notice_views(before).push((n.kind, n.subject@)));
        }
        i = i + 1;
    }
    assert(es.take(leaves.len() as int) =~= es);
    r
}


pub open spec fn feature_lines(mcus: Seq<Seq<char>>) -> Seq<Seq<char>> {
    mcus.map_values(|m: Seq<char>| "    feature = \""@ + m + "\""@)
}

/// The guard of a block: any of the features of `mcus`.
pub open spec fn cfg_head(mcus: Seq<Seq<char>>) -> Seq<char> {
    "\n#[cfg(any(\n"@ + join(feature_lines(mcus), ",\n"@) + "\n))]\n"@
}

/// The GPIO port module of a pin name: `PA9` gives `gpioa`.
pub open spec fn gpio_key(pin: Seq<char>) -> Seq<char> {
    let k = run_len(pin, CharClass::Letter) as int;
    "gpio"@ + lowercase_of(if k >= 1 { pin.subrange(1, k) } else { Seq::empty() })
}

/// Consecutive pins of one port module, as (module, pins) runs.
pub open spec fn port_runs(pins: Seq<Seq<char>>) -> Seq<(Seq<char>, Seq<Seq<char>>)>
    decreases pins.len(),
{
    if pins.len() == 0 {
        Seq::empty()
    } else {
        let r = port_runs(pins.drop_last());
        let p = pins.last();
        let k = gpio_key(p);
        if r.len() > 0 && r.last().0 == k {
            r.update(r.len() - 1, (k, r.last().1.push(p)))
        } else {
            r.push((k, seq![p]))
        }
    }
}

pub open spec fn run_lines(runs: Seq<(Seq<char>, Seq<Seq<char>>)>) -> Seq<Seq<char>> {
    runs.map_values(|r: (Seq<char>, Seq<Seq<char>>)| "    "@ + r.0 + " => {"@ + wrapped(r.1) + "}"@)
}

/// The body of a block of aspect `a` listing the values `vals`.
pub open spec fn block_body(a: Aspect, vals: Seq<Seq<char>>) -> Seq<char> {
    match a {
        Aspect::Devices => "dev_uses! {\n    "@ + join(vals, ", "@) + "\n}\n"@,
        Aspect::AltFunctions => "gpio_af_uses! {\n    "@ + join(vals, ", "@) + "\n}\n"@,
        Aspect::Pins => "gpio_uses! {\n"@ + join(run_lines(port_runs(vals)), ",\n"@) + "\n}\n"@,
        Aspect::Roles => "io_traits! {\n    Dev => {"@ + wrapped(vals.map_values(|v: Seq<char>| role_field(v, 0)))
            + "}\n}\n"@,
        Aspect::Implementations => "pins! {\n"@ + join(vals, ",\n"@) + "\n}\n"@,
    }
}

/// Whether model list `a` comes strictly before `b`: element by element in
/// numeric-aware order, a proper prefix first.
pub open spec fn list_lt(a: Mcus, b: Mcus) -> bool
    decreases a.len(),
{
    if a.len() == 0 {
        b.len() > 0
    } else if b.len() == 0 {
        false
    } else if alnum_order(a[0], b[0]) == Ordering::Less {
        true
    } else if alnum_order(a[0], b[0]) == Ordering::Greater {
        false
    } else {
        list_lt(a.drop_first(), b.drop_first())
    }
}

pub open spec fn insert_block(x: (Mcus, Seq<char>), s: Seq<(Mcus, Seq<char>)>) -> Seq<(Mcus, Seq<char>)>
    decreases s.len(),
{
    if s.len() == 0 {
        seq![x]
    } else if list_lt(x.0, s[0].0) {
        seq![x] + s
    } else {
        seq![s[0]] + insert_block(x, s.drop_first())
    }
}

/// Insertion sort of blocks by their model lists.
pub open spec fn sorted_blocks(s: Seq<(Mcus, Seq<char>)>) -> Seq<(Mcus, Seq<char>)>
    decreases s.len(),
{
    if s.len() == 0 {
        s
    } else {
        insert_block(s.last(), sorted_blocks(s.drop_last()))
    }
}

pub open spec fn concat_blocks(s: Seq<(Mcus, Seq<char>)>) -> Seq<char>
    decreases s.len(),
{
    if s.len() == 0 {
        Seq::empty()
    } else {
        concat_blocks(s.drop_last()) + s.last().1
    }
}

/// Each group as its sorted model list and its block.
pub open spec fn group_blocks(a: Aspect, gs: Seq<(Mcus, Seq<Seq<char>>)>) -> Seq<(Mcus, Seq<char>)> {
    gs.map_values(|g: (Mcus, Seq<Seq<char>>)| (set_alnum(g.0), cfg_head(set_alnum(g.0)) + block_body(a, set_alnum(g.1))))
}

/// The groups of aspect `a`: where `combine` holds, values with the same
/// support, merged over all their leaves; else values under each leaf's own set
/// of models.
pub open spec fn section_groups(es: Seq<(LeafKey, Mcus)>, stems: Seq<Seq<char>>, a: Aspect, combine: bool) -> Seq<(Mcus, Seq<Seq<char>>)> {
    if combine {
        partition_seq(collect_seq(items_of(es, stems, a)))
    } else {
        bucket_seq(items_of(es, stems, a))
    }
}

/// The text of aspect `a` of the leaves `es` restricted to `stems`: one block per
/// group, blocks in order of their model lists.
pub open spec fn section_text(es: Seq<(LeafKey, Mcus)>, stems: Seq<Seq<char>>, a: Aspect, combine: bool) -> Seq<char> {
    concat_blocks(sorted_blocks(group_blocks(a, section_groups(es, stems, a, combine))))
}

fn list_before(a: &Vec<String>, b: &Vec<String>) -> (r: bool)
    ensures
        r == list_lt(strs(a@), strs(b@)),
{
    let ghost x = strs(a@);
    let ghost y = strs(b@);
    let mut i: usize = 0;
    assert(x.skip(0) =~= x && y.skip(0) =~= y);
    while i < a.len() && i < b.len()
        invariant
            i <= a.len(),
            i <= b.len(),
            x == strs(a@),
            y == strs(b@),
            list_lt(x, y) == list_lt(x.skip(i as int), y.skip(i as int)),
        decreases a.len() - i,
    {
        let o = SortedString(a[i].clone()).compare(&SortedString(b[i].clone()));
        assert(x.skip(i as int)[0] == x[i as int] && y.skip(i as int)[0] == y[i as int]);
        match o {
            Ordering::Less => {
                return true;
            },
            Ordering::Greater => {
                return false;
            },
            Ordering::Equal => {},
        }
        assert(x.skip(i as int).drop_first() =~= x.skip(i + 1));
        assert(y.skip(i as int).drop_first() =~= y.skip(i + 1));
        i = i + 1;
    }
    i == a.len() && i < b.len()
}

pub open spec fn block_views(v: Seq<(Vec<String>, String)>) -> Seq<(Mcus, Seq<char>)> {
    v.map_values(|b: (Vec<String>, String)| (strs(b.0@), b.1@))
}

proof fn lemma_insert_block_at(x: (Mcus, Seq<char>), s: Seq<(Mcus, Seq<char>)>, j: int)
    requires
        0 <= j <= s.len(),
        forall|i: int| 0 <= i < j ==> !list_lt(x.0, #[trigger] s[i].0),
        j < s.len() ==> list_lt(x.0, s[j].0),
    ensures
        insert_block(x, s) == s.take(j) + seq![x] + s.skip(j),
    decreases s.len(),
{
    if s.len() == 0 {
        assert(s.take(j) + seq![x] + s.skip(j) =~= seq![x]);
    } else if j == 0 {
        assert(s.take(j) + seq![x] + s.skip(j) =~= seq![x] + s);
    } else {
        let t = s.drop_first();
        assert forall|i: int| 0 <= i < j - 1 implies !list_lt(x.0, #[trigger] t[i].0) by {
            assert(t[i] == s[i + 1]);
        }
        lemma_insert_block_at(x, t, j - 1);
        assert(s.take(j) + seq![x] + s.skip(j) =~= seq![s[0]] + (t.take(j - 1) + seq![x] + t.skip(
            j - 1,
        )));
    }
}

pub(crate) fn insert_block_exec(v: &mut Vec<(Vec<String>, String)>, x: (Vec<String>, String))
    ensures
        block_views(final(v)@) == insert_block((strs(x.0@), x.1@), block_views(old(v)@)),
        forall|i: int| 0 <= i < final(v)@.len() ==> #[trigger] final(v)@[i] == x || old(v)@.contains(final(v)@[i]),
{
    let ghost v0 = v@;
    let ghost s = block_views(v@);
    let ghost xv = (strs(x.0@), x.1@);
    let mut j: usize = 0;
    while j < v.len() && !list_before(&x.0, &v[j].0)
        invariant
            j <= v.len(),
            s == block_views(v@),
            xv == (strs(x.0@), x.1@),
            forall|i: int| 0 <= i < j ==> !list_lt(xv.0, #[trigger] s[i].0),
        decreases v.len() - j,
    {
        j = j + 1;
    }
    proof {
        lemma_insert_block_at(xv, s, j as int);
    }
    v.insert(j, x);
    assert(block_views(v@) =~= s.take(j as int) + seq![xv] + s.skip(j as int));
    assert forall|i: int| 0 <= i < v@.len() implies #[trigger] v@[i] == x || v0.contains(v@[i]) by {
        if i < j {
            assert(v@[i] == v0[i]);
        } else if i > j {
            assert(v@[i] == v0[i - 1]);
        }
    }
}

fn push_feature_lines(out: &mut String, mcus: &Vec<String>)
    ensures
        final(out)@ == old(out)@ + join(feature_lines(strs(mcus@)), ",\n"@),
{
    let mut lines: Vec<String> = Vec::new();
    let mut i: usize = 0;
    while i < mcus.len()
        invariant
            i <= mcus.len(),
            strs(lines@) == feature_lines(strs(mcus@)).take(i as int),
        decreases mcus.len() - i,
    {
        let mut l = String::from_str("    feature = \"");
        l.append(mcus[i].as_str());
        l.append("\"");
        let ghost before = lines@;
        lines.push(l);
        assert(strs(lines@) =~= strs(before).push(l@));
        i = i + 1;
        assert(strs(lines@) =~= feature_lines(strs(mcus@)).take(i as int));
    }
    assert(feature_lines(strs(mcus@)).take(mcus.len() as int) =~= feature_lines(strs(mcus@)));
    assert(lines@.map_values(|p: String| p@) =~= strs(lines@));
    push_joined(out, &lines, ",\n");
}

fn gpio_key_string(pin: &String) -> (r: String)
    ensures
        r@ == gpio_key(pin@),
{
    let cs = chars_of(pin.as_str());
    let k = scan_run(&cs, 0, &CharClass::Letter);
    assert(cs@.skip(0) =~= cs@);
    let mut r = String::from_str("gpio");
    if k >= 1 {
        let part = crate::text::slice_string(&cs, 1, k);
        let low = to_lowercase(part.as_str());
        r.append(low.as_str());
    } else {
        let low = to_lowercase("");
        proof {
            reveal_strlit("");
            assert(""@ =~= Seq::<char>::empty());
        }
        r.append(low.as_str());
    }
    r
}

fn port_run_lines(pins: &Vec<String>) -> (r: Vec<String>)
    ensures
        strs(r@) == run_lines(port_runs(strs(pins@))),
{
    let ghost ps = strs(pins@);
    let mut keys: Vec<String> = Vec::new();
    let mut runs: Vec<Vec<String>> = Vec::new();
    let mut i: usize = 0;
    assert(ps.take(0) =~= Seq::<Seq<char>>::empty());
    while i < pins.len()
        invariant
            i <= pins.len(),
            ps == strs(pins@),
            keys.len() == runs.len(),
            port_runs(ps.take(i as int)).len() == keys.len(),
            forall|k: int| 0 <= k < keys.len() ==> #[trigger] port_runs(ps.take(i as int))[k] == (keys@[k]@, strs(runs@[k]@)),
        decreases pins.len() - i,
    {
        proof {
            assert(ps.take(i + 1).drop_last() =~= ps.take(i as int));
        }
        let g = gpio_key_string(&pins[i]);
        let n = keys.len();
        if n > 0 && keys[n - 1] == g {
            let mut last = runs.pop().unwrap();
            last.push(pins[i].clone());
            runs.push(last);
        } else {
            keys.push(g);
            runs.push(vec![pins[i].clone()]);
        }
        i = i + 1;
        proof {
            let pr = port_runs(ps.take(i as int));
            assert forall|k: int| 0 <= k < keys.len() implies #[trigger] pr[k] == (keys@[k]@, strs(runs@[k]@)) by {
                if k == keys.len() - 1 {
                    assert(strs(runs@[k]@) =~= port_runs(ps.take(i as int))[k].1);
                }
            }
        }
    }
    assert(ps.take(pins.len() as int) =~= ps);
    let mut r: Vec<String> = Vec::new();
    let mut j: usize = 0;
    let ghost pr = port_runs(ps);
    while j < keys.len()
        invariant
            j <= keys.len(),
            keys.len() == runs.len(),
            pr.len() == keys.len(),
            forall|k: int| 0 <= k < keys.len() ==> #[trigger] pr[k] == (keys@[k]@, strs(runs@[k]@)),
            strs(r@) == run_lines(pr).take(j as int),
        decreases keys.len() - j,
    {
        let mut l = String::from_str("    ");
        l.append(keys[j].as_str());
        l.append(" => {");
        push_wrapped(&mut l, &runs[j]);
        l.append("}");
        assert(runs@[j as int]@.map_values(|p: String| p@) =~= strs(runs@[j as int]@));
        let ghost before = r@;
        r.push(l);
        assert(strs(r@) =~= strs(before).push(l@));
        j = j + 1;
        assert(strs(r@) =~= run_lines(pr).take(j as int));
    }
    assert(run_lines(pr).take(keys.len() as int) =~= run_lines(pr));
    r
}

fn render_block(a: &Aspect, mcus: &Vec<String>, vals: &Vec<String>) -> (r: String)
    ensures
        r@ == cfg_head(strs(mcus@)) + block_body(*a, strs(vals@)),
{
    let mut out = String::from_str("\n#[cfg(any(\n");
    push_feature_lines(&mut out, mcus);
    out.append("\n))]\n");
    assert(vals@.map_values(|p: String| p@) =~= strs(vals@));
    match a {
        Aspect::Devices => {
            out.append("dev_uses! {\n    ");
            push_joined(&mut out, vals, ", ");
            out.append("\n}\n");
        },
        Aspect::AltFunctions => {
            out.append("gpio_af_uses! {\n    ");
            push_joined(&mut out, vals, ", ");
            out.append("\n}\n");
        },
        Aspect::Pins => {
            out.append("gpio_uses! {\n");
            let lines = port_run_lines(vals);
            assert(lines@.map_values(|p: String| p@) =~= strs(lines@));
            push_joined(&mut out, &lines, ",\n");
            out.append("\n}\n");
        },
        Aspect::Roles => {
            out.append("io_traits! {\n    Dev => {");
            let mut names: Vec<String> = Vec::new();
            let mut i: usize = 0;
            while i < vals.len()
                invariant
                    i <= vals.len(),
                    strs(names@) == strs(vals@).take(i as int).map_values(|v: Seq<char>| role_field(v, 0)),
                decreases vals.len() - i,
            {
                let n = role_field_exec(&vals[i], 0);
                let ghost before = strs(names@);
                names.push(n);
                assert(strs(names@) =~= before.push(n@));
                i = i + 1;
                assert(strs(names@) =~= strs(vals@).take(i as int).map_values(|v: Seq<char>| role_field(v, 0)));
            }
            assert(strs(vals@).take(vals.len() as int) =~= strs(vals@));
            assert(names@.map_values(|p: String| p@) =~= strs(names@));
            push_wrapped(&mut out, &names);
            out.append("}\n}\n");
        },
        Aspect::Implementations => {
            out.append("pins! {\n");
            push_joined(&mut out, vals, ",\n");
            out.append("\n}\n");
        },
    }
    out
}

/// The text of aspect `a` of `leaves` restricted to `stems`, as [`section_text`]
/// says.
pub fn render_section(leaves: &Vec<Leaf>, stems: &Vec<String>, a: &Aspect, combine: bool) -> (r: String)
    ensures
        r@ == section_text(leaf_entries(leaves@), strs(stems@), *a, combine),
{
    let items = view_items(leaves, stems, a);
    let groups = if combine {
        let collected = collect(&items);
        partition(&collected)
    } else {
        bucket(&items)
    };
    let ghost gl = group_lists(groups@);
    let mut blocks: Vec<(Vec<String>, String)> = Vec::new();
    let mut i: usize = 0;
    assert(group_blocks(*a, gl).take(0) =~= Seq::<(Mcus, Seq<char>)>::empty());
    while i < groups.len()
        invariant
            i <= groups.len(),
            gl == group_lists(groups@),
            block_views(blocks@) == sorted_blocks(group_blocks(*a, gl).take(i as int)),
        decreases groups.len() - i,
    {
        proof {
            assert(group_blocks(*a, gl).take(i + 1).drop_last() =~= group_blocks(*a, gl).take(i as int));
        }
        let key = sorted_set(&groups[i].mcus);
        let vals = sorted_set(&groups[i].values);
        let text = render_block(a, &key, &vals);
        insert_block_exec(&mut blocks, (key, text));
        i = i + 1;
    }
    assert(group_blocks(*a, gl).take(groups.len() as int) =~= group_blocks(*a, gl));
    let mut out = String::new();
    let mut j: usize = 0;
    let ghost bs = block_views(blocks@);
    assert(bs.take(0) =~= Seq::<(Mcus, Seq<char>)>::empty());
    while j < blocks.len()
        invariant
            j <= blocks.len(),
            bs == block_views(blocks@),
            out@ == concat_blocks(bs.take(j as int)),
        decreases blocks.len() - j,
    {
        proof {
            assert(bs.take(j + 1).drop_last() =~= bs.take(j as int));
        }
        out.append(blocks[j].1.as_str());
        j = j + 1;
    }
    assert(bs.take(blocks.len() as int) =~= bs);
    out
}

/// A role of a stem as one string: `Usart:PinTx:TX`.
pub open spec fn role_string(k: LeafKey) -> Seq<char> {
    pascal_of(k.0.0) + ":"@ + io_name_of(k.1.1) + ":"@ + k.1.1
}

/// Field `n` of a role string.
pub open spec fn role_field(r: Seq<char>, n: nat) -> Seq<char> {
    match field_by(r, CharClass::NotColon, n) {
        Some(x) => x,
        None => Seq::empty(),
    }
}

/// For each rendered leaf whose stem is in `stems` and each of its models, the
/// model tagged with the role of the leaf.
pub open spec fn role_items(es: Seq<(LeafKey, Mcus)>, stems: Seq<Seq<char>>) -> Seq<(Seq<char>, Mcus)>
    decreases es.len(),
{
    if es.len() == 0 {
        Seq::empty()
    } else {
        let prev = role_items(es.drop_last(), stems);
        let i = es.len() - 1;
        if stems.contains(es[i].0.0.0) && chosen(es, i) {
            prev + es[i].1.map_values(|m: Seq<char>| (m, seq![role_string(es[i].0)]))
        } else {
            prev
        }
    }
}

/// Consecutive roles of one stem, as (stem, roles) runs.
pub open spec fn stem_runs(roles: Seq<Seq<char>>) -> Seq<(Seq<char>, Seq<Seq<char>>)>
    decreases roles.len(),
{
    if roles.len() == 0 {
        Seq::empty()
    } else {
        let r = stem_runs(roles.drop_last());
        let p = roles.last();
        let k = role_field(p, 0);
        if r.len() > 0 && r.last().0 == k {
            r.update(r.len() - 1, (k, r.last().1.push(p)))
        } else {
            r.push((k, seq![p]))
        }
    }
}

/// The combined interface of a stem, required of a tuple of all its role pins.
pub open spec fn stem_text(stem: Seq<char>, rs: Seq<Seq<char>>) -> Seq<char> {
    let all_io = wrapped(rs.map_values(|r: Seq<char>| role_field(r, 2)));
    let bounds = rs.map_values(|r: Seq<char>| "        "@ + role_field(r, 2) + ": "@ + role_field(r, 1) + "<"@ + stem + ">"@);
    "    /// "@ + stem + "\n    pub trait Pins<"@ + stem + "> {}\n    impl<"@ + stem + ", "@ + all_io
        + "> Pins<"@ + stem + "> for ("@ + all_io + ")\n    where\n"@ + join(bounds, ",\n"@)
        + "\n    {}\n"@
}

/// The block of models `mcus` that share the roles `roles`.
pub open spec fn pins_block(mcus: Seq<Seq<char>>, roles: Seq<Seq<char>>) -> Seq<char> {
    "\n#[cfg(any(\n"@ + join(feature_lines(mcus), ",\n"@) + "\n))] mod pins {\n    use crate::pin_defs::*;\n"@
        + join(stem_runs(roles).map_values(|x: (Seq<char>, Seq<Seq<char>>)| stem_text(x.0, x.1)), "\n"@)
        + "\n}\n"@
}

/// The combined interfaces of the leaves `es` restricted to `stems`: models are
/// grouped by their exact set of roles, one block per group, blocks in order of
/// their model lists.
pub open spec fn pins_text(es: Seq<(LeafKey, Mcus)>, stems: Seq<Seq<char>>) -> Seq<char> {
    concat_blocks(sorted_blocks(partition_seq(collect_seq(role_items(es, stems))).map_values(
        |g: (Mcus, Seq<Seq<char>>)| (set_alnum(g.1), pins_block(set_alnum(g.1), set_alnum(g.0))),
    )))
}

fn role_string_exec(l: &Leaf) -> (r: String)
    ensures
        r@ == role_string(l.key()),
{
    let mut r = pascal_case(l.stem.as_str());
    r.append(":");
    let ion = io_name_string(&l.io);
    r.append(ion.as_str());
    r.append(":");
    r.append(l.io.as_str());
    r
}

fn role_items_exec(leaves: &Vec<Leaf>, stems: &Vec<String>) -> (r: Vec<Tagged>)
    ensures
        tagged_views(r@) == role_items(leaf_entries(leaves@), strs(stems@)),
{
    let ghost es = leaf_entries(leaves@);
    let mut r: Vec<Tagged> = Vec::new();
    let mut i: usize = 0;
    assert(tagged_views(r@) =~= role_items(es.take(0), strs(stems@)));
    while i < leaves.len()
        invariant
            i <= leaves.len(),
            es == leaf_entries(leaves@),
            tagged_views(r@) == role_items(es.take(i as int), strs(stems@)),
        decreases leaves.len() - i,
    {
        let ghost pre = es.take(i + 1);
        proof {
            assert(pre.drop_last() =~= es.take(i as int));
            lemma_chosen_prefix(es, i as int);
        }
        let l = &leaves[i];
        if contains_str(stems, l.stem.as_str()) && is_chosen(leaves, i) {
            let role = role_string_exec(l);
            let ghost start = tagged_views(r@);
            let ghost ms = strs(l.mcus@);
            let mut j: usize = 0;
            while j < l.mcus.len()
                invariant
                    j <= l.mcus.len(),
                    ms == strs(l.mcus@),
                    tagged_views(r@) == start + ms.take(j as int).map_values(|m: Seq<char>| (m, seq![role@])),
                decreases l.mcus.len() - j,
            {
                let t = Tagged { value: l.mcus[j].clone(), mcus: vec![role.clone()] };
                assert(strs(t.mcus@) =~= seq![role@]);
                let ghost before = tagged_views(r@);
                r.push(t);
                assert(tagged_views(r@) =~= before.push(t.pair()));
                j = j + 1;
                assert(ms.take(j as int).map_values(|m: Seq<char>| (m, seq![role@])) =~= ms.take(j - 1).map_values(
                    |m: Seq<char>| (m, seq![role@]),
                ).push((ms[j - 1], seq![role@])));
            }
            assert(ms.take(l.mcus.len() as int) =~= ms);
        }
        i = i + 1;
    }
    assert(es.take(leaves.len() as int) =~= es);
    r
}

fn role_field_exec(r: &String, n: usize) -> (f: String)
    ensures
        f@ == role_field(r@, n as nat),
{
    match split_by(r.as_str(), &CharClass::NotColon, n) {
        Some(x) => x,
        None => String::new(),
    }
}

fn stem_text_exec(stem: &String, rs: &Vec<String>) -> (r: String)
    ensures
        r@ == stem_text(stem@, strs(rs@)),
{
    let ghost rv = strs(rs@);
    let mut ios: Vec<String> = Vec::new();
    let mut bounds: Vec<String> = Vec::new();
    let mut i: usize = 0;
    while i < rs.len()
        invariant
            i <= rs.len(),
            rv == strs(rs@),
            strs(ios@) == rv.take(i as int).map_values(|r: Seq<char>| role_field(r, 2)),
            strs(bounds@) == rv.take(i as int).map_values(|r: Seq<char>| "        "@ + role_field(r, 2) + ": "@ + role_field(r, 1) + "<"@ + stem@ + ">"@),
        decreases rs.len() - i,
    {
        let io = role_field_exec(&rs[i], 2);
        let ion = role_field_exec(&rs[i], 1);
        let mut b = String::from_str("        ");
        b.append(io.as_str());
        b.append(": ");
        b.append(ion.as_str());
        b.append("<");
        b.append(stem.as_str());
        b.append(">");
        let ghost ib = strs(ios@);
        let ghost bb = strs(bounds@);
        ios.push(io);
        bounds.push(b);
        assert(strs(ios@) =~= ib.push(io@));
        assert(strs(bounds@) =~= bb.push(b@));
        i = i + 1;
        assert(strs(ios@) =~= rv.take(i as int).map_values(|r: Seq<char>| role_field(r, 2)));
        assert(strs(bounds@) =~= rv.take(i as int).map_values(|r: Seq<char>| "        "@ + role_field(r, 2) + ": "@ + role_field(r, 1) + "<"@ + stem@ + ">"@));
    }
    assert(rv.take(rs.len() as int) =~= rv);
    assert(ios@.map_values(|p: String| p@) =~= strs(ios@));
    assert(bounds@.map_values(|p: String| p@) =~= strs(bounds@));
    let mut all_io = String::new();
    push_wrapped(&mut all_io, &ios);
    let mut out = String::from_str("    /// ");
    out.append(stem.as_str());
    out.append("\n    pub trait Pins<");
    out.append(stem.as_str());
    out.append("> {}\n    impl<");
    out.append(stem.as_str());
    out.append(", ");
    out.append(all_io.as_str());
    out.append("> Pins<");
    out.append(stem.as_str());
    out.append("> for (");
    out.append(all_io.as_str());
    out.append(")\n    where\n");
    push_joined(&mut out, &bounds, ",\n");
    out.append("\n    {}\n");
    out
}

fn stem_run_texts(roles: &Vec<String>) -> (r: Vec<String>)
    ensures
        strs(r@) == stem_runs(strs(roles@)).map_values(|x: (Seq<char>, Seq<Seq<char>>)| stem_text(x.0, x.1)),
{
    let ghost ps = strs(roles@);
    let mut keys: Vec<String> = Vec::new();
    let mut runs: Vec<Vec<String>> = Vec::new();
    let mut i: usize = 0;
    assert(ps.take(0) =~= Seq::<Seq<char>>::empty());
    while i < roles.len()
        invariant
            i <= roles.len(),
            ps == strs(roles@),
            keys.len() == runs.len(),
            stem_runs(ps.take(i as int)).len() == keys.len(),
            forall|k: int| 0 <= k < keys.len() ==> #[trigger] stem_runs(ps.take(i as int))[k] == (keys@[k]@, strs(runs@[k]@)),
        decreases roles.len() - i,
    {
        proof {
            assert(ps.take(i + 1).drop_last() =~= ps.take(i as int));
        }
        let g = role_field_exec(&roles[i], 0);
        let n = keys.len();
        if n > 0 && keys[n - 1] == g {
            let mut last = runs.pop().unwrap();
            last.push(roles[i].clone());
            runs.push(last);
        } else {
            keys.push(g);
            runs.push(vec![roles[i].clone()]);
        }
        i = i + 1;
        proof {
            let pr = stem_runs(ps.take(i as int));
            assert forall|k: int| 0 <= k < keys.len() implies #[trigger] pr[k] == (keys@[k]@, strs(runs@[k]@)) by {
                if k == keys.len() - 1 {
                    assert(strs(runs@[k]@) =~= stem_runs(ps.take(i as int))[k].1);
                }
            }
        }
    }
    assert(ps.take(roles.len() as int) =~= ps);
    let ghost pr = stem_runs(ps);
    let ghost want = pr.map_values(|x: (Seq<char>, Seq<Seq<char>>)| stem_text(x.0, x.1));
    let mut r: Vec<String> = Vec::new();
    let mut j: usize = 0;
    while j < keys.len()
        invariant
            j <= keys.len(),
            keys.len() == runs.len(),
            pr.len() == keys.len(),
            want == pr.map_values(|x: (Seq<char>, Seq<Seq<char>>)| stem_text(x.0, x.1)),
            forall|k: int| 0 <= k < keys.len() ==> #[trigger] pr[k] == (keys@[k]@, strs(runs@[k]@)),
            strs(r@) == want.take(j as int),
        decreases keys.len() - j,
    {
        let t = stem_text_exec(&keys[j], &runs[j]);
        let ghost before = r@;
        r.push(t);
        assert(strs(r@) =~= strs(before).push(t@));
        j = j + 1;
        assert(strs(r@) =~= want.take(j as int));
    }
    assert(want.take(keys.len() as int) =~= want);
    r
}

fn pins_block_exec(mcus: &Vec<String>, roles: &Vec<String>) -> (r: String)
    ensures
        r@ == pins_block(strs(mcus@), strs(roles@)),
{
    let mut out = String::from_str("\n#[cfg(any(\n");
    push_feature_lines(&mut out, mcus);
    out.append("\n))] mod pins {\n    use crate::pin_defs::*;\n");
    let texts = stem_run_texts(roles);
    assert(texts@.map_values(|p: String| p@) =~= strs(texts@));
    push_joined(&mut out, &texts, "\n");
    out.append("\n}\n");
    out
}

/// The combined interfaces, as [`pins_text`] says.
pub fn render_pins(leaves: &Vec<Leaf>, stems: &Vec<String>) -> (r: String)
    ensures
        r@ == pins_text(leaf_entries(leaves@), strs(stems@)),
{
    let items = role_items_exec(leaves, stems);
    let collected = collect(&items);
    let groups = partition(&collected);
    let ghost gl = group_lists(groups@);
    let ghost gb = gl.map_values(
        |g: (Mcus, Seq<Seq<char>>)| (set_alnum(g.1), pins_block(set_alnum(g.1), set_alnum(g.0))),
    );
    let mut blocks: Vec<(Vec<String>, String)> = Vec::new();
    let mut i: usize = 0;
    while i < groups.len()
        invariant
            i <= groups.len(),
            gl == group_lists(groups@),
            gb == gl.map_values(
                |g: (Mcus, Seq<Seq<char>>)| (set_alnum(g.1), pins_block(set_alnum(g.1), set_alnum(g.0))),
            ),
            block_views(blocks@) == sorted_blocks(gb.take(i as int)),
        decreases groups.len() - i,
    {
        proof {
            assert(gb.take(i + 1).drop_last() =~= gb.take(i as int));
        }
        let models = sorted_set(&groups[i].values);
        let roles = sorted_set(&groups[i].mcus);
        let text = pins_block_exec(&models, &roles);
        insert_block_exec(&mut blocks, (models, text));
        i = i + 1;
    }
    assert(gb.take(groups.len() as int) =~= gb);
    let mut out = String::new();
    let mut j: usize = 0;
    let ghost bs = block_views(blocks@);
    assert(bs.take(0) =~= Seq::<(Mcus, Seq<char>)>::empty());
    while j < blocks.len()
        invariant
            j <= blocks.len(),
            bs == block_views(blocks@),
            out@ == concat_blocks(bs.take(j as int)),
        decreases blocks.len() - j,
    {
        proof {
            assert(bs.take(j + 1).drop_last() =~= bs.take(j as int));
        }
        out.append(blocks[j].1.as_str());
        j = j + 1;
    }
    assert(bs.take(blocks.len() as int) =~= bs);
    out
}

/// The rendered capability source: the uses (devices, alternate functions, pins),
/// the role interfaces and the pin implementations, with the notices of
/// revisions left out.
pub struct PinMappings {
    pub uses: String,
    pub traits: String,
    pub implementations: String,
    /// The combined interface of each stem, per group of models with the same roles.
    pub pins: String,
    pub notices: Vec<Notice>,
}

/// Renders the stems of `af_tree` that `af_stem_selection` selects (all of them
/// where it is `None`), with values grouped by their support where
/// `combine_mcu_lists` holds; a selection of stems the tree lacks is an error.
pub fn generate_pin_mappings(af_tree: &AfTree, af_stem_selection: &Option<Vec<&str>>, combine_mcu_lists: bool) -> (r: Result<PinMappings, String>)
    ensures
        match (r, stem_choice(af_tree.leaves(), selection_view(*af_stem_selection))) {
            (Ok(p), Ok(stems)) => {
                let es = af_tree.leaves();
                let c = combine_mcu_lists;
                &&& p.uses@ == section_text(es, stems, Aspect::Devices, c) + section_text(es, stems, Aspect::AltFunctions, c)
                    + section_text(es, stems, Aspect::Pins, c)
                &&& p.traits@ == section_text(es, stems, Aspect::Roles, c)
                &&& p.implementations@ == section_text(es, stems, Aspect::Implementations, c)
                &&& p.pins@ == pins_text(es, stems)
                &&& notice_views(p.notices@) == version_notices(es, stems)
            },
            (Err(e), Err(m)) => e@ == m,
            _ => false,
        },
{
    let stems = match af_tree.iter(af_stem_selection) {
        Ok(s) => s,
        Err(e) => {
            return Err(e);
        },
    };
    let leaves = af_tree.leaf_list();
    let c = combine_mcu_lists;
    let mut uses = render_section(leaves, &stems, &Aspect::Devices, c);
    let afs = render_section(leaves, &stems, &Aspect::AltFunctions, c);
    uses.append(afs.as_str());
    let gpios = render_section(leaves, &stems, &Aspect::Pins, c);
    uses.append(gpios.as_str());
    let traits = render_section(leaves, &stems, &Aspect::Roles, c);
    let implementations = render_section(leaves, &stems, &Aspect::Implementations, c);
    let pins = render_pins(leaves, &stems);
    let notices = version_warnings(leaves, &stems);
    Ok(PinMappings { uses, traits, implementations, pins, notices })
}


/// The rendering is deterministic, and the tree depends on the order of its
/// sources only through their sorted order: two source lists that sort into the
/// same sequence give the same tree, the same notices, the same stems and the
/// same text, block for block.
pub proof fn lemma_pipeline_deterministic(s1: Seq<GpioSource>, s2: Seq<GpioSource>, sel: Option<Seq<Seq<char>>>, a: Aspect, combine: bool)
    requires
        sorted_sources(s1) == sorted_sources(s2),
    ensures
        fill_spec(sorted_sources(s1)) == fill_spec(sorted_sources(s2)),
        stem_choice(fill_spec(sorted_sources(s1)).1, sel) == stem_choice(fill_spec(sorted_sources(s2)).1, sel),
        stem_choice(fill_spec(sorted_sources(s1)).1, sel) matches Ok(stems) ==> section_text(
            fill_spec(sorted_sources(s1)).1,
            stems,
            a,
            combine,
        ) == section_text(fill_spec(sorted_sources(s2)).1, stems, a, combine) && pins_text(
            fill_spec(sorted_sources(s1)).1,
            stems,
        ) == pins_text(fill_spec(sorted_sources(s2)).1, stems),
{
}

} // verus!
