//! Character-level helpers: ASCII classes, case mapping and PascalCase.

use vstd::prelude::*;

verus! {

pub open spec fn is_upper(c: char) -> bool {
    'A' <= c && c <= 'Z'
}

pub open spec fn is_lower(c: char) -> bool {
    'a' <= c && c <= 'z'
}

pub open spec fn is_digit(c: char) -> bool {
    '0' <= c && c <= '9'
}

pub open spec fn is_alnum(c: char) -> bool {
    is_upper(c) || is_lower(c) || is_digit(c)
}

/// Word characters: ASCII letters, digits and underscore.
pub open spec fn is_word(c: char) -> bool {
    is_alnum(c) || c == '_'
}

pub open spec fn lower_char(c: char) -> char {
    if is_upper(c) {
        ((c as u8) + 32) as char
    } else {
        c
    }
}

pub open spec fn upper_char(c: char) -> char {
    if is_lower(c) {
        ((c as u8) - 32) as char
    } else {
        c
    }
}

pub fn to_lower_char(c: char) -> (r: char)
    ensures
        r == lower_char(c),
{
    if 'A' <= c && c <= 'Z' {
        ((c as u8) + 32) as char
    } else {
        c
    }
}


pub fn to_upper_char(c: char) -> (r: char)
    ensures
        r == upper_char(c),
{
    if 'a' <= c && c <= 'z' {
        ((c as u8) - 32) as char
    } else {
        c
    }
}

/// Relies on String::push: the character is appended at the end.
#[verifier::external_body]
pub(crate) fn push_char(s: &mut String, c: char)
    ensures
        final(s)@ == old(s)@.push(c),
{
    s.push(c)
}

/// What `{:?}` writes for a string: the string quoted, with its quotes,
/// backslashes, control and non-printable characters escaped.
pub uninterp spec fn debug_of(s: Seq<char>) -> Seq<char>;

/// Relies on the `Debug` formatting of `str` (`format!("{:?}", s)`); its text
/// depends on the characters of `s` alone.
#[verifier::external_body]
pub(crate) fn debug_string(s: &str) -> (r: String)
    ensures
        r@ == debug_of(s@),
{
    format!("{:?}", s)
}

/// How `str::to_lowercase` maps a string.
pub uninterp spec fn lowercase_of(s: Seq<char>) -> Seq<char>;

/// Relies on `str::to_lowercase`, the Unicode lower-case mapping; its result
/// depends on the characters of `s` alone.
#[verifier::external_body]
pub(crate) fn to_lowercase(s: &str) -> (r: String)
    ensures
        r@ == lowercase_of(s@),
{
    s.to_lowercase()
}

/// The characters of `s`, in order.
pub fn chars_of(s: &str) -> (r: Vec<char>)
    ensures
        r@ == s@,
{
    let n = s.unicode_len();
    let mut r: Vec<char> = Vec::new();
    let mut i: usize = 0;
    while i < n
        invariant
            n == s@.len(),
            i <= n,
            r@ == s@.take(i as int),
        decreases n - i,
    {
        r.push(s.get_char(i));
        i = i + 1;
        assert(r@ =~= s@.take(i as int));
    }
    assert(r@ =~= s@);
    r
}

/// The string made of the characters `cs`, in order.
pub fn string_of(cs: &Vec<char>) -> (r: String)
    ensures
        r@ == cs@,
{
    let mut r = String::new();
    let mut i: usize = 0;
    while i < cs.len()
        invariant
            i <= cs.len(),
            r@ == cs@.take(i as int),
        decreases cs.len() - i,
    {
        push_char(&mut r, cs[i]);
        i = i + 1;
        assert(r@ =~= cs@.take(i as int));
    }
    assert(r@ =~= cs@);
    r
}

/// Character classes that the identifier grammars are written in.
pub enum CharClass {
    Upper,
    UpperOrHyphen,
    Letter,
    Digit,
    Alnum,
    Word,
    WordOrHyphen,
    NotUnderscore,
    NotColon,
}

pub open spec fn in_class(k: CharClass, c: char) -> bool {
    match k {
        CharClass::Upper => is_upper(c),
        CharClass::UpperOrHyphen => is_upper(c) || c == '-',
        CharClass::Letter => is_upper(c) || is_lower(c),
        CharClass::Digit => is_digit(c),
        CharClass::Alnum => is_alnum(c),
        CharClass::Word => is_word(c),
        CharClass::WordOrHyphen => is_word(c) || c == '-',
        CharClass::NotUnderscore => c != '_',
        CharClass::NotColon => c != ':',
    }
}

pub fn class_has(k: &CharClass, c: char) -> (r: bool)
    ensures
        r == in_class(*k, c),
{
    let upper = 'A' <= c && c <= 'Z';
    let lower = 'a' <= c && c <= 'z';
    let digit = '0' <= c && c <= '9';
    match k {
        CharClass::Upper => upper,
        CharClass::UpperOrHyphen => upper || c == '-',
        CharClass::Letter => upper || lower,
        CharClass::Digit => digit,
        CharClass::Alnum => upper || lower || digit,
        CharClass::Word => upper || lower || digit || c == '_',
        CharClass::WordOrHyphen => upper || lower || digit || c == '_' || c == '-',
        CharClass::NotUnderscore => c != '_',
        CharClass::NotColon => c != ':',
    }
}

/// Length of the longest prefix of `s` whose characters are all in class `k`.
pub open spec fn run_len(s: Seq<char>, k: CharClass) -> nat
    decreases s.len(),
{
    if s.len() > 0 && in_class(k, s[0]) {
        1 + run_len(s.drop_first(), k)
    } else {
        0
    }
}

pub proof fn lemma_run_len_bound(s: Seq<char>, k: CharClass)
    ensures
        run_len(s, k) <= s.len(),
        forall|i: int| 0 <= i < run_len(s, k) ==> in_class(k, #[trigger] s[i]),
        run_len(s, k) < s.len() ==> !in_class(k, s[run_len(s, k) as int]),
    decreases s.len(),
{
    if s.len() > 0 && in_class(k, s[0]) {
        lemma_run_len_bound(s.drop_first(), k);
        assert forall|i: int| 0 <= i < run_len(s, k) implies in_class(k, #[trigger] s[i]) by {
            if i > 0 {
                assert(s[i] == s.drop_first()[i - 1]);
            }
        }
    }
}

/// End of the run of class `k` that starts at `i` in `cs`.
pub fn scan_run(cs: &Vec<char>, i: usize, k: &CharClass) -> (j: usize)
    requires
        i <= cs.len(),
    ensures
        j == i + run_len(cs@.skip(i as int), *k),
        j <= cs.len(),
{
    let mut j = i;
    while j < cs.len() && class_has(k, cs[j])
        invariant
            i <= j <= cs.len(),
            run_len(cs@.skip(i as int), *k) == (j - i) + run_len(cs@.skip(j as int), *k),
        decreases cs.len() - j,
    {
        assert(cs@.skip(j as int).drop_first() =~= cs@.skip(j + 1));
        j = j + 1;
    }
    proof {
        lemma_run_len_bound(cs@.skip(j as int), *k);
    }
    j
}

/// Whether `p` occurs in `s` at index `i`.
pub open spec fn occurs_at(s: Seq<char>, i: int, p: Seq<char>) -> bool {
    0 <= i && i + p.len() <= s.len() && s.subrange(i, i + p.len()) == p
}

pub fn has_at(cs: &Vec<char>, i: usize, p: &Vec<char>) -> (r: bool)
    ensures
        r == occurs_at(cs@, i as int, p@),
{
    if i > cs.len() || p.len() > cs.len() - i {
        return false;
    }
    let mut k: usize = 0;
    while k < p.len()
        invariant
            i + p.len() <= cs.len(),
            k <= p.len(),
            forall|m: int| 0 <= m < k ==> cs@[i + m] == p@[m],
        decreases p.len() - k,
    {
        if cs[i + k] != p[k] {
            assert(cs@.subrange(i as int, i + p.len())[k as int] != p@[k as int]);
            return false;
        }
        k = k + 1;
    }
    assert(cs@.subrange(i as int, i + p.len()) =~= p@);
    true
}

/// The characters of `cs` from `i` to `j`, as a string.
pub fn slice_string(cs: &Vec<char>, i: usize, j: usize) -> (r: String)
    requires
        i <= j <= cs.len(),
    ensures
        r@ == cs@.subrange(i as int, j as int),
{
    let mut r = String::new();
    let mut k = i;
    while k < j
        invariant
            i <= k <= j <= cs.len(),
            r@ == cs@.subrange(i as int, k as int),
        decreases j - k,
    {
        push_char(&mut r, cs[k]);
        k = k + 1;
        assert(r@ =~= cs@.subrange(i as int, k as int));
    }
    r
}

/// `parts` joined with `sep` between each two.
pub open spec fn join(parts: Seq<Seq<char>>, sep: Seq<char>) -> Seq<char>
    decreases parts.len(),
{
    if parts.len() == 0 {
        Seq::empty()
    } else if parts.len() == 1 {
        parts[0]
    } else {
        join(parts.drop_last(), sep) + sep + parts.last()
    }
}

/// Appends `parts`, joined with `sep`, to `out`.
pub fn push_joined(out: &mut String, parts: &Vec<String>, sep: &str)
    ensures
        final(out)@ == old(out)@ + join(parts@.map_values(|p: String| p@), sep@),
{
    let ghost ps = parts@.map_values(|p: String| p@);
    let ghost start = out@;
    let mut i: usize = 0;
    while i < parts.len()
        invariant
            i <= parts.len(),
            ps == parts@.map_values(|p: String| p@),
            out@ == start + join(ps.take(i as int), sep@),
        decreases parts.len() - i,
    {
        proof {
            assert(ps.take(i + 1).drop_last() =~= ps.take(i as int));
        }
        if i > 0 {
            out.append(sep);
        }
        out.append(parts[i].as_str());
        i = i + 1;
        proof {
            if i == 1 {
                assert(ps.take(1) =~= seq![ps[0]]);
            }
            assert(out@ =~= start + join(ps.take(i as int), sep@));
        }
    }
    assert(ps.take(parts.len() as int) =~= ps);
}

/// Column budget of a wrapped enumeration line.
pub const WRAP_WIDTH: usize = 50;

/// Greedy packing of `items` into lines: an item joins the last line, after
/// `", "`, where the line stays within the budget; else it opens a new line.
pub open spec fn wrap_lines(items: Seq<Seq<char>>) -> Seq<Seq<char>>
    decreases items.len(),
{
    if items.len() == 0 {
        Seq::empty()
    } else {
        let ls = wrap_lines(items.drop_last());
        let x = items.last();
        if ls.len() > 0 && ls.last().len() + 2 + x.len() <= WRAP_WIDTH {
            ls.update(ls.len() - 1, ls.last() + ", "@ + x)
        } else {
            ls.push(x)
        }
    }
}

/// `items` joined with `", "`; where that is longer than the budget, the packed
/// lines instead, each on its own indented line. The order of the items is kept.
pub open spec fn wrapped(items: Seq<Seq<char>>) -> Seq<char> {
    if join(items, ", "@).len() <= WRAP_WIDTH {
        join(items, ", "@)
    } else {
        "\n        "@ + join(wrap_lines(items), ",\n        "@) + "\n    "@
    }
}

/// Appends `parts` as [`wrapped`] sets them.
pub fn push_wrapped(out: &mut String, parts: &Vec<String>)
    ensures
        final(out)@ == old(out)@ + wrapped(parts@.map_values(|p: String| p@)),
{
    let ghost ps = parts@.map_values(|p: String| p@);
    let mut flat = String::new();
    push_joined(&mut flat, parts, ", ");
    if flat.as_str().unicode_len() <= WRAP_WIDTH {
        out.append(flat.as_str());
        return;
    }
    let mut lines: Vec<String> = Vec::new();
    let mut i: usize = 0;
    while i < parts.len()
        invariant
            i <= parts.len(),
            ps == parts@.map_values(|p: String| p@),
            lines@.map_values(|p: String| p@) == wrap_lines(ps.take(i as int)),
        decreases parts.len() - i,
    {
        proof {
            assert(ps.take(i + 1).drop_last() =~= ps.take(i as int));
        }
        let ghost before = lines@.map_values(|p: String| p@);
        let n = lines.len();
        let x = &parts[i];
        let fits = if n > 0 {
            let a = lines[n - 1].as_str().unicode_len();
            let b = x.as_str().unicode_len();
            a <= WRAP_WIDTH && b <= WRAP_WIDTH && a + 2 + b <= WRAP_WIDTH
        } else {
            false
        };
        if fits {
            let mut last = lines.pop().unwrap();
            last.append(", ");
            last.append(x.as_str());
            lines.push(last);
            assert(lines@.map_values(|p: String| p@) =~= before.update(n - 1, before.last() + ", "@ + ps[i as int]));
        } else {
            lines.push(x.clone());
            assert(lines@.map_values(|p: String| p@) =~= before.push(ps[i as int]));
        }
        i = i + 1;
    }
    assert(ps.take(parts.len() as int) =~= ps);
    out.append("\n        ");
    push_joined(out, &lines, ",\n        ");
    out.append("\n    ");
}

/// Where a PascalCase scan stands after a prefix of its input.
pub enum CaseMode {
    /// Outside any segment.
    Gap,
    /// Inside a run of digits.
    Digits,
    /// Right after an upper-case letter that opened a segment.
    UpperStart,
    /// Inside a run of upper-case letters that follows an opening one.
    UpperRun,
    /// Inside a run of lower-case letters.
    LowerRun,
}

/// One step of the PascalCase scan: the text emitted for `c` and the next mode.
///
/// Segments are a run of digits (kept), an upper-case letter followed by a run of
/// upper-case or of lower-case letters (first letter kept, the rest lower-cased),
/// or a lower-case run (first letter upper-cased). Other characters are dropped.
pub open spec fn case_step(m: CaseMode, c: char) -> (Seq<char>, CaseMode) {
    if m is Digits && is_digit(c) {
        (seq![c], CaseMode::Digits)
    } else if (m is UpperStart || m is UpperRun) && is_upper(c) {
        (seq![lower_char(c)], CaseMode::UpperRun)
    } else if (m is UpperStart || m is LowerRun) && is_lower(c) {
        (seq![c], CaseMode::LowerRun)
    } else if is_digit(c) {
        (seq![c], CaseMode::Digits)
    } else if is_upper(c) {
        (seq![c], CaseMode::UpperStart)
    } else if is_lower(c) {
        (seq![upper_char(c)], CaseMode::LowerRun)
    } else {
        (Seq::empty(), CaseMode::Gap)
    }
}

/// The PascalCase text of `s` so far, and the scan's mode after it.
pub open spec fn pascal_scan(s: Seq<char>) -> (Seq<char>, CaseMode)
    decreases s.len(),
{
    if s.len() == 0 {
        (Seq::empty(), CaseMode::Gap)
    } else {
        let (out, m) = pascal_scan(s.drop_last());
        let (t, m2) = case_step(m, s.last());
        (out + t, m2)
    }
}

pub open spec fn pascal_of(s: Seq<char>) -> Seq<char> {
    pascal_scan(s).0
}

fn case_step_exec(m: &CaseMode, c: char, out: &mut Vec<char>) -> (r: CaseMode)
    ensures
        final(out)@ == old(out)@ + case_step(*m, c).0,
        r == case_step(*m, c).1,
{
    let digit = '0' <= c && c <= '9';
    let upper = 'A' <= c && c <= 'Z';
    let lower = 'a' <= c && c <= 'z';
    let in_digits = matches!(m, CaseMode::Digits);
    let after_upper = matches!(m, CaseMode::UpperStart);
    let in_upper = matches!(m, CaseMode::UpperRun);
    let in_lower = matches!(m, CaseMode::LowerRun);
    if in_digits && digit {
        out.push(c);
        CaseMode::Digits
    } else if (after_upper || in_upper) && upper {
        out.push(to_lower_char(c));
        CaseMode::UpperRun
    } else if (after_upper || in_lower) && lower {
        out.push(c);
        CaseMode::LowerRun
    } else if digit {
        out.push(c);
        CaseMode::Digits
    } else if upper {
        out.push(c);
        CaseMode::UpperStart
    } else if lower {
        out.push(to_upper_char(c));
        CaseMode::LowerRun
    } else {
        CaseMode::Gap
    }
}

/// Conversion to PascalCase.
pub trait ToPascalCase {
    fn to_pascalcase(&self) -> String;
}

impl ToPascalCase for str {
    fn to_pascalcase(&self) -> (r: String)
        ensures
            r@ == pascal_of(self@),
    {
        pascal_case(self)
    }
}

/// PascalCase of `s`: "CH1N" gives "Ch1N", "tx_en" gives "TxEn".
pub fn pascal_case(s: &str) -> (r: String)
    ensures
        r@ == pascal_of(s@),
{
    let cs = chars_of(s);
    let mut out: Vec<char> = Vec::new();
    let mut m = CaseMode::Gap;
    let mut i: usize = 0;
    while i < cs.len()
        invariant
            i <= cs.len(),
            cs@ == s@,
            (out@, m) == pascal_scan(s@.take(i as int)),
        decreases cs.len() - i,
    {
        proof {
            assert(s@.take(i + 1).drop_last() =~= s@.take(i as int));
        }
        m = case_step_exec(&m, cs[i], &mut out);
        i = i + 1;
    }
    assert(s@.take(cs.len() as int) =~= s@);
    string_of(&out)
}

} // verus!
