//! The numeric-aware order of names (`PA2` before `PA10`), and sorting by it.

use vstd::prelude::*;
use std::cmp::Ordering;

verus! {

/// How `alphanumeric_sort::compare_str` orders two strings.
pub uninterp spec fn alnum_order(a: Seq<char>, b: Seq<char>) -> Ordering;

/// Relies on alphanumeric_sort::compare_str, the numeric-aware comparison of two
/// strings; its result depends on the two strings alone.
#[verifier::external_body]
fn alnum_cmp(a: &str, b: &str) -> (r: Ordering)
    ensures
        r == alnum_order(a@, b@),
{
    alphanumeric_sort::compare_str(a, b)
}

/// Whether `a` comes strictly before `b` in the numeric-aware order.
pub open spec fn alnum_lt(a: Seq<char>, b: Seq<char>) -> bool {
    alnum_order(a, b) == Ordering::Less
}

pub fn alnum_before(a: &str, b: &str) -> (r: bool)
    ensures
        r == alnum_lt(a@, b@),
{
    match alnum_cmp(a, b) {
        Ordering::Less => true,
        _ => false,
    }
}

/// The views of a sequence of strings.
pub open spec fn strs(v: Seq<String>) -> Seq<Seq<char>> {
    v.map_values(|s: String| s@)
}

/// `s` with `x` placed before its first element that `x` comes strictly before.
pub open spec fn insert_alnum(x: Seq<char>, s: Seq<Seq<char>>) -> Seq<Seq<char>>
    decreases s.len(),
{
    if s.len() == 0 {
        seq![x]
    } else if alnum_lt(x, s[0]) {
        seq![x] + s
    } else {
        seq![s[0]] + insert_alnum(x, s.drop_first())
    }
}

/// Insertion sort of `s` in the numeric-aware order.
pub open spec fn sorted_alnum(s: Seq<Seq<char>>) -> Seq<Seq<char>>
    decreases s.len(),
{
    if s.len() == 0 {
        s
    } else {
        insert_alnum(s.last(), sorted_alnum(s.drop_last()))
    }
}

/// `s` with `x` added in numeric-aware place, unless `s` holds it already.
pub open spec fn add_alnum(x: Seq<char>, s: Seq<Seq<char>>) -> Seq<Seq<char>> {
    if s.contains(x) {
        s
    } else {
        insert_alnum(x, s)
    }
}

/// The distinct names of `s`, in numeric-aware order.
pub open spec fn set_alnum(s: Seq<Seq<char>>) -> Seq<Seq<char>>
    decreases s.len(),
{
    if s.len() == 0 {
        s
    } else {
        add_alnum(s.last(), set_alnum(s.drop_last()))
    }
}

proof fn lemma_insert_at(x: Seq<char>, s: Seq<Seq<char>>, j: int)
    requires
        0 <= j <= s.len(),
        forall|i: int| 0 <= i < j ==> !alnum_lt(x, #[trigger] s[i]),
        j < s.len() ==> alnum_lt(x, s[j]),
    ensures
        insert_alnum(x, s) == s.take(j) + seq![x] + s.skip(j),
    decreases s.len(),
{
    if s.len() == 0 {
        assert(s.take(j) + seq![x] + s.skip(j) =~= seq![x]);
    } else if j == 0 {
        assert(s.take(j) + seq![x] + s.skip(j) =~= seq![x] + s);
    } else {
        let t = s.drop_first();
        assert forall|i: int| 0 <= i < j - 1 implies !alnum_lt(x, #[trigger] t[i]) by {
            assert(t[i] == s[i + 1]);
        }
        lemma_insert_at(x, t, j - 1);
        assert(s.take(j) + seq![x] + s.skip(j) =~= seq![s[0]] + (t.take(j - 1) + seq![x] + t.skip(
            j - 1,
        )));
    }
}

/// Inserts `x` into `v` at its numeric-aware place.
pub fn insert_sorted(v: &mut Vec<String>, x: String)
    ensures
        strs(final(v)@) == insert_alnum(x@, strs(old(v)@)),
{
    let ghost s = strs(v@);
    let mut j: usize = 0;
    while j < v.len() && !alnum_before(x.as_str(), v[j].as_str())
        invariant
            j <= v.len(),
            s == strs(v@),
            forall|i: int| 0 <= i < j ==> !alnum_lt(x@, #[trigger] s[i]),
        decreases v.len() - j,
    {
        j = j + 1;
    }
    proof {
        lemma_insert_at(x@, s, j as int);
    }
    v.insert(j, x);
    assert(strs(v@) =~= s.take(j as int) + seq![x@] + s.skip(j as int));
}

/// Whether `v` holds a string equal to `x`.
pub fn contains_str(v: &Vec<String>, x: &str) -> (r: bool)
    ensures
        r == strs(v@).contains(x@),
{
    let mut i: usize = 0;
    while i < v.len()
        invariant
            i <= v.len(),
            forall|k: int| 0 <= k < i ==> strs(v@)[k] != x@,
        decreases v.len() - i,
    {
        if str_eq(v[i].as_str(), x) {
            assert(strs(v@)[i as int] == x@);
            return true;
        }
        i = i + 1;
    }
    false
}

/// Equality of two strings, character by character.
pub fn str_eq(a: &str, b: &str) -> (r: bool)
    ensures
        r == (a@ == b@),
{
    let x = String::from_str(a);
    let y = String::from_str(b);
    x == y
}

/// Adds `x` to the sorted, duplicate-free `v` unless it holds it already.
pub fn add_sorted(v: &mut Vec<String>, x: String)
    ensures
        strs(final(v)@) == add_alnum(x@, strs(old(v)@)),
{
    if !contains_str(v, x.as_str()) {
        insert_sorted(v, x);
    }
}

/// Clone of a list of strings.
pub fn clone_strs(v: &Vec<String>) -> (r: Vec<String>)
    ensures
        strs(r@) == strs(v@),
{
    let mut r: Vec<String> = Vec::new();
    let mut i: usize = 0;
    while i < v.len()
        invariant
            i <= v.len(),
            strs(r@) == strs(v@).take(i as int),
        decreases v.len() - i,
    {
        let c = v[i].clone();
        assert(c@ == strs(v@)[i as int]);
        let ghost before = r@;
        r.push(c);
        assert(strs(r@) =~= strs(before).push(c@));
        i = i + 1;
        assert(strs(r@) =~= strs(v@).take(i as int));
    }
    assert(strs(v@).take(v.len() as int) =~= strs(v@));
    r
}

/// `v` sorted in numeric-aware order: `PA10, PA2, PB1` gives `PA2, PA10, PB1`.
pub fn sort_alnum(v: &Vec<String>) -> (r: Vec<String>)
    ensures
        strs(r@) == sorted_alnum(strs(v@)),
{
    let mut r: Vec<String> = Vec::new();
    let mut i: usize = 0;
    while i < v.len()
        invariant
            i <= v.len(),
            strs(r@) == sorted_alnum(strs(v@).take(i as int)),
        decreases v.len() - i,
    {
        proof {
            assert(strs(v@).take(i + 1).drop_last() =~= strs(v@).take(i as int));
        }
        insert_sorted(&mut r, v[i].clone());
        i = i + 1;
    }
    assert(strs(v@).take(v.len() as int) =~= strs(v@));
    r
}

/// The distinct strings of `v`, in numeric-aware order.
pub fn sorted_set(v: &Vec<String>) -> (r: Vec<String>)
    ensures
        strs(r@) == set_alnum(strs(v@)),
{
    let mut r: Vec<String> = Vec::new();
    let mut i: usize = 0;
    while i < v.len()
        invariant
            i <= v.len(),
            strs(r@) == set_alnum(strs(v@).take(i as int)),
        decreases v.len() - i,
    {
        proof {
            assert(strs(v@).take(i + 1).drop_last() =~= strs(v@).take(i as int));
        }
        add_sorted(&mut r, v[i].clone());
        i = i + 1;
    }
    assert(strs(v@).take(v.len() as int) =~= strs(v@));
    r
}

/// Whether `a` comes strictly before `b` character by character, as `String`'s
/// own order has it.
pub open spec fn lex_lt(a: Seq<char>, b: Seq<char>) -> bool
    decreases a.len(),
{
    if a.len() == 0 {
        b.len() > 0
    } else if b.len() == 0 {
        false
    } else if a[0] != b[0] {
        a[0] < b[0]
    } else {
        lex_lt(a.drop_first(), b.drop_first())
    }
}

pub fn lex_before(a: &str, b: &str) -> (r: bool)
    ensures
        r == lex_lt(a@, b@),
{
    let x = crate::text::chars_of(a);
    let y = crate::text::chars_of(b);
    let mut i: usize = 0;
    assert(a@.skip(0) =~= a@ && b@.skip(0) =~= b@);
    while i < x.len() && i < y.len() && x[i] == y[i]
        invariant
            i <= x.len(),
            i <= y.len(),
            lex_lt(a@, b@) == lex_lt(a@.skip(i as int), b@.skip(i as int)),
            x@ == a@,
            y@ == b@,
        decreases x.len() - i,
    {
        assert(a@.skip(i as int).drop_first() =~= a@.skip(i + 1));
        assert(b@.skip(i as int).drop_first() =~= b@.skip(i + 1));
        i = i + 1;
    }
    if i == x.len() {
        i < y.len()
    } else if i == y.len() {
        false
    } else {
        x[i] < y[i]
    }
}

/// `s` with `x` placed before its first element that `x` comes strictly before,
/// character by character.
pub open spec fn insert_lex(x: Seq<char>, s: Seq<Seq<char>>) -> Seq<Seq<char>>
    decreases s.len(),
{
    if s.len() == 0 {
        seq![x]
    } else if lex_lt(x, s[0]) {
        seq![x] + s
    } else {
        seq![s[0]] + insert_lex(x, s.drop_first())
    }
}

/// Insertion sort of `s` in character order.
pub open spec fn sorted_lex(s: Seq<Seq<char>>) -> Seq<Seq<char>>
    decreases s.len(),
{
    if s.len() == 0 {
        s
    } else {
        insert_lex(s.last(), sorted_lex(s.drop_last()))
    }
}

proof fn lemma_insert_lex_at(x: Seq<char>, s: Seq<Seq<char>>, j: int)
    requires
        0 <= j <= s.len(),
        forall|i: int| 0 <= i < j ==> !lex_lt(x, #[trigger] s[i]),
        j < s.len() ==> lex_lt(x, s[j]),
    ensures
        insert_lex(x, s) == s.take(j) + seq![x] + s.skip(j),
    decreases s.len(),
{
    if s.len() == 0 {
        assert(s.take(j) + seq![x] + s.skip(j) =~= seq![x]);
    } else if j == 0 {
        assert(s.take(j) + seq![x] + s.skip(j) =~= seq![x] + s);
    } else {
        let t = s.drop_first();
        assert forall|i: int| 0 <= i < j - 1 implies !lex_lt(x, #[trigger] t[i]) by {
            assert(t[i] == s[i + 1]);
        }
        lemma_insert_lex_at(x, t, j - 1);
        assert(s.take(j) + seq![x] + s.skip(j) =~= seq![s[0]] + (t.take(j - 1) + seq![x] + t.skip(
            j - 1,
        )));
    }
}

fn insert_lex_exec(v: &mut Vec<String>, x: String)
    ensures
        strs(final(v)@) == insert_lex(x@, strs(old(v)@)),
{
    let ghost s = strs(v@);
    let mut j: usize = 0;
    while j < v.len() && !lex_before(x.as_str(), v[j].as_str())
        invariant
            j <= v.len(),
            s == strs(v@),
            forall|i: int| 0 <= i < j ==> !lex_lt(x@, #[trigger] s[i]),
        decreases v.len() - j,
    {
        j = j + 1;
    }
    proof {
        lemma_insert_lex_at(x@, s, j as int);
    }
    v.insert(j, x);
    assert(strs(v@) =~= s.take(j as int) + seq![x@] + s.skip(j as int));
}

/// `v` sorted in character order, as `String`'s own order sorts it.
pub fn sort_lex(v: &Vec<String>) -> (r: Vec<String>)
    ensures
        strs(r@) == sorted_lex(strs(v@)),
{
    let mut r: Vec<String> = Vec::new();
    let mut i: usize = 0;
    while i < v.len()
        invariant
            i <= v.len(),
            strs(r@) == sorted_lex(strs(v@).take(i as int)),
        decreases v.len() - i,
    {
        proof {
            assert(strs(v@).take(i + 1).drop_last() =~= strs(v@).take(i as int));
        }
        insert_lex_exec(&mut r, v[i].clone());
        i = i + 1;
    }
    assert(strs(v@).take(v.len() as int) =~= strs(v@));
    r
}

proof fn lemma_lex_irreflexive(a: Seq<char>)
    ensures
        !lex_lt(a, a),
    decreases a.len(),
{
    if a.len() > 0 {
        lemma_lex_irreflexive(a.drop_first());
    }
}

proof fn lemma_lex_transitive(a: Seq<char>, b: Seq<char>, c: Seq<char>)
    requires
        lex_lt(a, b),
        lex_lt(b, c),
    ensures
        lex_lt(a, c),
    decreases a.len(),
{
    if a.len() > 0 && a[0] == b[0] && b[0] == c[0] {
        lemma_lex_transitive(a.drop_first(), b.drop_first(), c.drop_first());
    }
}

proof fn lemma_lex_total(a: Seq<char>, b: Seq<char>)
    requires
        a != b,
    ensures
        lex_lt(a, b) || lex_lt(b, a),
    decreases a.len(),
{
    if a.len() > 0 && b.len() > 0 && a[0] == b[0] {
        assert(a =~= seq![a[0]] + a.drop_first());
        assert(b =~= seq![b[0]] + b.drop_first());
        lemma_lex_total(a.drop_first(), b.drop_first());
    } else if a.len() == 0 && b.len() == 0 {
        assert(a =~= b);
    }
}

/// Whether `s` is in character order, each string not before any earlier one.
pub open spec fn lex_sorted(s: Seq<Seq<char>>) -> bool {
    forall|i: int, j: int| 0 <= i < j < s.len() ==> !lex_lt(#[trigger] s[j], #[trigger] s[i])
}

proof fn lemma_insert_lex_sorted(x: Seq<char>, s: Seq<Seq<char>>)
    requires
        lex_sorted(s),
    ensures
        lex_sorted(insert_lex(x, s)),
        insert_lex(x, s).to_multiset() == s.to_multiset().insert(x),
    decreases s.len(),
{
    broadcast use vstd::seq_lib::group_to_multiset_ensures;
    if s.len() == 0 {
        assert(seq![x] =~= s.push(x));
    } else if lex_lt(x, s[0]) {
        let r = seq![x] + s;
        assert(r =~= s.insert(0, x));
        assert forall|i: int, j: int| 0 <= i < j < r.len() implies !lex_lt(#[trigger] r[j], #[trigger] r[i]) by {
            if i == 0 {
                if lex_lt(r[j], x) {
                    if j - 1 == 0 {
                        lemma_lex_transitive(s[0], x, s[0]);
                        lemma_lex_irreflexive(s[0]);
                    } else {
                        lemma_lex_transitive(s[j - 1], x, s[0]);
                    }
                }
            } else {
                assert(r[i] == s[i - 1] && r[j] == s[j - 1]);
            }
        }
    } else {
        let t = s.drop_first();
        assert(lex_sorted(t)) by {
            assert forall|i: int, j: int| 0 <= i < j < t.len() implies !lex_lt(#[trigger] t[j], #[trigger] t[i]) by {
                assert(t[i] == s[i + 1] && t[j] == s[j + 1]);
            }
        }
        lemma_insert_lex_sorted(x, t);
        let u = insert_lex(x, t);
        let r = seq![s[0]] + u;
        assert(r =~= u.insert(0, s[0]));
        assert(s =~= t.insert(0, s[0]));
        assert(r.to_multiset() =~= s.to_multiset().insert(x));
        assert forall|i: int, j: int| 0 <= i < j < r.len() implies !lex_lt(#[trigger] r[j], #[trigger] r[i]) by {
            if i == 0 {
                let y = u[j - 1];
                assert(u.to_multiset().count(y) > 0);
                if y != x {
                    assert(t.contains(y));
                    let k = choose|k: int| 0 <= k < t.len() && t[k] == y;
                    assert(s[k + 1] == y);
                }
            } else {
                assert(r[i] == u[i - 1] && r[j] == u[j - 1]);
            }
        }
    }
}

proof fn lemma_sorted_lex_props(s: Seq<Seq<char>>)
    ensures
        lex_sorted(sorted_lex(s)),
        sorted_lex(s).to_multiset() == s.to_multiset(),
    decreases s.len(),
{
    broadcast use vstd::seq_lib::group_to_multiset_ensures;
    if s.len() > 0 {
        lemma_sorted_lex_props(s.drop_last());
        lemma_insert_lex_sorted(s.last(), sorted_lex(s.drop_last()));
        assert(s =~= s.drop_last().push(s.last()));
    }
}

proof fn lemma_sorted_unique(a: Seq<Seq<char>>, b: Seq<Seq<char>>)
    requires
        lex_sorted(a),
        lex_sorted(b),
        a.to_multiset() == b.to_multiset(),
    ensures
        a == b,
    decreases a.len(),
{
    broadcast use vstd::seq_lib::group_to_multiset_ensures;
    vstd::seq_lib::to_multiset_len(a);
    vstd::seq_lib::to_multiset_len(b);
    assert(a.len() == b.len());
    if a.len() == 0 {
        assert(a =~= b);
    } else {
        assert(a.to_multiset().count(a[0]) > 0);
        assert(b.contains(a[0]));
        let k = choose|k: int| 0 <= k < b.len() && b[k] == a[0];
        assert(b.to_multiset().count(b[0]) > 0);
        assert(a.contains(b[0]));
        let l = choose|l: int| 0 <= l < a.len() && a[l] == b[0];
        if k > 0 {
            assert(!lex_lt(b[k], b[0]));
        } else {
            lemma_lex_irreflexive(b[0]);
        }
        if l > 0 {
            assert(!lex_lt(a[l], a[0]));
        } else {
            lemma_lex_irreflexive(a[0]);
        }
        if a[0] != b[0] {
            lemma_lex_total(a[0], b[0]);
        }
        let a2 = a.drop_first();
        let b2 = b.drop_first();
        assert(a2 =~= a.remove(0));
        assert(b2 =~= b.remove(0));
        assert(lex_sorted(a2)) by {
            assert forall|i: int, j: int| 0 <= i < j < a2.len() implies !lex_lt(#[trigger] a2[j], #[trigger] a2[i]) by {
                assert(a2[i] == a[i + 1] && a2[j] == a[j + 1]);
            }
        }
        assert(lex_sorted(b2)) by {
            assert forall|i: int, j: int| 0 <= i < j < b2.len() implies !lex_lt(#[trigger] b2[j], #[trigger] b2[i]) by {
                assert(b2[i] == b[i + 1] && b2[j] == b[j + 1]);
            }
        }
        lemma_sorted_unique(a2, b2);
        assert(a[0] == b[0]);
        assert(a =~= seq![a[0]] + a2);
        assert(b =~= seq![b[0]] + b2);
    }
}

/// Sorting in character order does not depend on the order of its input: two
/// sequences holding the same strings, as often each, sort alike.
pub proof fn lemma_sorted_lex_order_free(a: Seq<Seq<char>>, b: Seq<Seq<char>>)
    requires
        a.to_multiset() == b.to_multiset(),
    ensures
        sorted_lex(a) == sorted_lex(b),
{
    lemma_sorted_lex_props(a);
    lemma_sorted_lex_props(b);
    lemma_sorted_unique(sorted_lex(a), sorted_lex(b));
}

/// A name kept in the numeric-aware order.
pub struct SortedString(pub String);

impl SortedString {
    pub fn as_str(&self) -> (r: &str)
        ensures
            r@ == self.0@,
    {
        self.0.as_str()
    }

    /// Numeric-aware comparison with `other`.
    pub fn compare(&self, other: &SortedString) -> (r: Ordering)
        ensures
            r == alnum_order(self.0@, other.0@),
    {
        alnum_cmp(self.0.as_str(), other.0.as_str())
    }
}

impl Clone for SortedString {
    fn clone(&self) -> (r: SortedString)
        ensures
            r.0@ == self.0@,
    {
        SortedString(self.0.clone())
    }
}

impl PartialEq for SortedString {
    fn eq(&self, other: &SortedString) -> (r: bool) {
        self.0 == other.0
    }
}

impl vstd::std_specs::cmp::PartialEqSpecImpl for SortedString {
    open spec fn obeys_eq_spec() -> bool {
        true
    }

    open spec fn eq_spec(&self, other: &SortedString) -> bool {
        self.0@ == other.0@
    }
}

/// Conversion of a name into a [`SortedString`].
pub trait ToSortedString {
    fn to_sorted_string(&self) -> SortedString;
}

impl ToSortedString for str {
    fn to_sorted_string(&self) -> (r: SortedString)
        ensures
            r.0@ == self@,
    {
        SortedString(String::from_str(self))
    }
}

impl ToSortedString for String {
    fn to_sorted_string(&self) -> (r: SortedString)
        ensures
            r.0@ == self@,
    {
        SortedString(self.clone())
    }
}

} // verus!
