//! Grammars of the identifiers found in the hardware database: pin-signal names,
//! alternate-function literals, pin names, GPIO revision identifiers and
//! microcontroller reference names.

use vstd::prelude::*;
use crate::text::{
    chars_of, has_at, lowercase_of, occurs_at, run_len, scan_run, slice_string, to_lowercase,
    lemma_run_len_bound, is_lower, is_upper, debug_of, debug_string, CharClass,
};

verus! {

pub open spec fn gpio_af_head() -> Seq<char> {
    seq!['G', 'P', 'I', 'O', '_']
}

/// An alternate-function literal is `GPIO_<code>_<rest>`: the code is a non-empty
/// run of ASCII letters and digits, the rest a non-empty run of word characters.
pub open spec fn af_code_spec(s: Seq<char>) -> Option<Seq<char>> {
    let a = run_len(s.skip(5), CharClass::Alnum) as int;
    let rest = s.skip(6 + a);
    if occurs_at(s, 0, gpio_af_head()) && a >= 1 && 5 + a < s.len() && s[5 + a] == '_'
        && rest.len() >= 1 && run_len(rest, CharClass::Word) == rest.len() {
        Some(s.subrange(5, 5 + a))
    } else {
        None
    }
}

/// The alternate-function code of a literal such as `GPIO_AF7_USART2` (`AF7`).
pub fn parse_af_code(lit: &str) -> (r: Option<String>)
    ensures
        r matches Some(c) ==> af_code_spec(lit@) == Some(c@),
        r is None ==> af_code_spec(lit@) is None,
{
    let cs = chars_of(lit);
    let head = vec!['G', 'P', 'I', 'O', '_'];
    if !has_at(&cs, 0, &head) {
        return None;
    }
    let e = scan_run(&cs, 5, &CharClass::Alnum);
    if e == 5 || e >= cs.len() || cs[e] != '_' {
        return None;
    }
    let f = scan_run(&cs, e + 1, &CharClass::Word);
    if f != cs.len() || f == e + 1 {
        return None;
    }
    Some(slice_string(&cs, 5, e))
}


/// A pin-signal name split into its parts.
pub struct SignalParts {
    /// Peripheral family, e.g. `USART`.
    pub stem: String,
    /// Peripheral instance, e.g. `USART2`.
    pub device: String,
    /// Signal role after the underscore, e.g. `TX`, where the name has one.
    pub io: Option<String>,
}

pub open spec fn parts_view(p: SignalParts) -> (Seq<char>, Seq<char>, Option<Seq<char>>) {
    (p.stem@, p.device@, match p.io {
        Some(io) => Some(io@),
        None => None,
    })
}

pub open spec fn fmp_i2_head() -> Seq<char> {
    seq!['F', 'M', 'P', 'I', '2']
}

pub open spec fn i2_head() -> Seq<char> {
    seq!['I', '2']
}

pub open spec fn usb_otg_head() -> Seq<char> {
    seq!['U', 'S', 'B', '_', 'O', 'T', 'G', '_']
}

pub open spec fn ext_tail() -> Seq<char> {
    seq!['e', 'x', 't']
}

/// Length of the irregular family prefix that a signal name starts with, if any.
pub open spec fn stem_prefix_len(s: Seq<char>) -> int {
    if occurs_at(s, 0, fmp_i2_head()) {
        5
    } else if occurs_at(s, 0, i2_head()) {
        2
    } else if occurs_at(s, 0, usb_otg_head()) {
        8
    } else {
        0
    }
}

/// The parts of `s` when its stem starts with a prefix of `p` characters: then a
/// non-empty run of upper-case letters and hyphens, then the instance digits and
/// an optional `ext`; after that, the end, or `_` and a non-empty role of word
/// characters and hyphens.
pub open spec fn parts_after(s: Seq<char>, p: int) -> Option<(Seq<char>, Seq<char>, Option<Seq<char>>)> {
    let t = s.skip(p);
    let a = run_len(t, CharClass::UpperOrHyphen) as int;
    let d = run_len(t.skip(a), CharClass::Digit) as int;
    let e: int = if occurs_at(t, a + d, ext_tail()) { 3 } else { 0 };
    let u = a + d + e;
    if a == 0 {
        None
    } else if u == t.len() {
        Some((s.take(p + a), s.take(p + u), None))
    } else if t[u] == '_' && u + 1 < t.len() && run_len(t.skip(u + 1), CharClass::WordOrHyphen)
        == t.len() - u - 1 {
        Some((s.take(p + a), s.take(p + u), Some(t.skip(u + 1))))
    } else {
        None
    }
}

/// Parts of a pin-signal name: with its irregular prefix where that parses, else
/// without one.
pub open spec fn signal_parts_spec(s: Seq<char>) -> Option<(Seq<char>, Seq<char>, Option<Seq<char>>)> {
    let p = stem_prefix_len(s);
    if parts_after(s, p) is Some {
        parts_after(s, p)
    } else {
        parts_after(s, 0)
    }
}

fn parts_after_exec(cs: &Vec<char>, p: usize) -> (r: Option<SignalParts>)
    requires
        p <= cs.len(),
    ensures
        r matches Some(x) ==> parts_after(cs@, p as int) == Some(parts_view(x)),
        r is None ==> parts_after(cs@, p as int) is None,
{
    let ghost t = cs@.skip(p as int);
    let a_end = scan_run(cs, p, &CharClass::UpperOrHyphen);
    let d_end = scan_run(cs, a_end, &CharClass::Digit);
    proof {
        assert(cs@.skip(a_end as int) =~= t.skip(a_end - p));
        assert(cs@.skip(d_end as int) =~= t.skip(d_end - p));
    }
    let ext = vec!['e', 'x', 't'];
    let has_ext = has_at(cs, d_end, &ext);
    proof {
        if d_end + 3 <= cs.len() {
            assert(cs@.subrange(d_end as int, d_end + 3) =~= t.subrange(d_end - p, d_end - p + 3));
        }
    }
    let u_end = if has_ext { d_end + 3 } else { d_end };
    if a_end == p {
        return None;
    }
    if u_end == cs.len() {
        let stem = slice_string(cs, 0, a_end);
        let device = slice_string(cs, 0, u_end);
        proof {
            assert(stem@ =~= cs@.take(a_end as int));
            assert(device@ =~= cs@.take(u_end as int));
        }
        return Some(SignalParts { stem, device, io: None });
    }
    if cs[u_end] != '_' || u_end + 1 >= cs.len() {
        return None;
    }
    let w_end = scan_run(cs, u_end + 1, &CharClass::WordOrHyphen);
    proof {
        assert(cs@.skip(u_end + 1) =~= t.skip(u_end - p + 1));
    }
    if w_end != cs.len() {
        return None;
    }
    let stem = slice_string(cs, 0, a_end);
    let device = slice_string(cs, 0, u_end);
    let io = slice_string(cs, u_end + 1, w_end);
    proof {
        assert(stem@ =~= cs@.take(a_end as int));
        assert(device@ =~= cs@.take(u_end as int));
        assert(io@ =~= t.skip(u_end - p + 1));
    }
    Some(SignalParts { stem, device, io: Some(io) })
}

/// Parts of a pin-signal name: `USART2_TX` gives (`USART`, `USART2`, `TX`),
/// `I2C1_SCL` gives (`I2C`, `I2C1`, `SCL`), `EVENTOUT` gives (`EVENTOUT`,
/// `EVENTOUT`, no role).
pub fn parse_signal_name(name: &str) -> (r: Option<SignalParts>)
    ensures
        r matches Some(x) ==> signal_parts_spec(name@) == Some(parts_view(x)),
        r is None ==> signal_parts_spec(name@) is None,
{
    let cs = chars_of(name);
    let fmp = vec!['F', 'M', 'P', 'I', '2'];
    let i2 = vec!['I', '2'];
    let usb = vec!['U', 'S', 'B', '_', 'O', 'T', 'G', '_'];
    let p: usize = if has_at(&cs, 0, &fmp) {
        5
    } else if has_at(&cs, 0, &i2) {
        2
    } else if has_at(&cs, 0, &usb) {
        8
    } else {
        0
    };
    match parts_after_exec(&cs, p) {
        Some(x) => Some(x),
        None => parts_after_exec(&cs, 0),
    }
}


/// A pin name is `P`, a non-empty run of letters (the port), then a non-empty run
/// of digits (the number) to the end.
pub open spec fn pin_parts_spec(s: Seq<char>) -> Option<(Seq<char>, Seq<char>)> {
    let a = run_len(s.skip(1), CharClass::Letter) as int;
    let d = run_len(s.skip(1 + a), CharClass::Digit) as int;
    if s.len() >= 1 && s[0] == 'P' && a >= 1 && d >= 1 && 1 + a + d == s.len() {
        Some((s.subrange(1, 1 + a), s.skip(1 + a)))
    } else {
        None
    }
}

/// Port letter and number of a pin name: `PA10` gives (`A`, `10`).
pub fn parse_pin_name(name: &str) -> (r: Option<(String, String)>)
    ensures
        r matches Some(x) ==> pin_parts_spec(name@) == Some((x.0@, x.1@)),
        r is None ==> pin_parts_spec(name@) is None,
{
    let cs = chars_of(name);
    if cs.len() == 0 || cs[0] != 'P' {
        return None;
    }
    let a_end = scan_run(&cs, 1, &CharClass::Letter);
    let d_end = scan_run(&cs, a_end, &CharClass::Digit);
    if a_end == 1 || d_end == a_end || d_end != cs.len() {
        return None;
    }
    let port = slice_string(&cs, 1, a_end);
    let number = slice_string(&cs, a_end, d_end);
    proof {
        assert(number@ =~= cs@.skip(a_end as int));
    }
    Some((port, number))
}

pub open spec fn gpio_head() -> Seq<char> {
    seq!['g', 'p', 'i', 'o', '_']
}

/// A GPIO revision identifier is `<group>_<revision>`: the group a non-empty run
/// of ASCII letters and digits, the revision `gpio_` and at least one more word
/// character, all word characters.
pub open spec fn gpio_id_spec(s: Seq<char>) -> Option<(Seq<char>, Seq<char>)> {
    let a = run_len(s, CharClass::Alnum) as int;
    let v = s.skip(a + 1);
    if a >= 1 && a < s.len() && s[a] == '_' && v.len() >= 6 && occurs_at(v, 0, gpio_head())
        && run_len(v, CharClass::Word) == v.len() {
        Some((s.take(a), v))
    } else {
        None
    }
}

/// Revision group and revision of a GPIO revision identifier:
/// `STM32F333_gpio_v1_0` gives (`STM32F333`, `gpio_v1_0`).
pub fn parse_gpio_id(id: &str) -> (r: Option<(String, String)>)
    ensures
        r matches Some(x) ==> gpio_id_spec(id@) == Some((x.0@, x.1@)),
        r is None ==> gpio_id_spec(id@) is None,
{
    let cs = chars_of(id);
    let a_end = scan_run(&cs, 0, &CharClass::Alnum);
    proof {
        assert(cs@.skip(0) =~= cs@);
    }
    if a_end == 0 || a_end >= cs.len() || cs[a_end] != '_' || cs.len() - a_end - 1 < 6 {
        return None;
    }
    let head = vec!['g', 'p', 'i', 'o', '_'];
    let ghost v = cs@.skip(a_end + 1);
    let h = has_at(&cs, a_end + 1, &head);
    proof {
        assert(cs@.subrange(a_end + 1, a_end + 6) =~= v.subrange(0, 5));
    }
    if !h {
        return None;
    }
    let w_end = scan_run(&cs, a_end + 1, &CharClass::Word);
    if w_end != cs.len() {
        return None;
    }
    let group = slice_string(&cs, 0, a_end);
    let rev = slice_string(&cs, a_end + 1, w_end);
    proof {
        assert(group@ =~= cs@.take(a_end as int));
        assert(rev@ =~= v);
    }
    Some((group, rev))
}

pub open spec fn stm32_head() -> Seq<char> {
    seq!['S', 'T', 'M', '3', '2']
}

/// A microcontroller reference name is `STM32`, a non-empty run of upper-case
/// letters, a non-empty run of digits, a letter, and at least one more ASCII letter
/// or digit to the end. Its model is the part up to the digits, lower-cased as
/// `str::to_lowercase` does.
pub open spec fn mcu_model_spec(s: Seq<char>) -> Option<Seq<char>> {
    let u = run_len(s.skip(5), CharClass::Upper) as int;
    let d = run_len(s.skip(5 + u), CharClass::Digit) as int;
    let m = 5 + u + d;
    let rest = s.skip(m + 1);
    if occurs_at(s, 0, stm32_head()) && u >= 1 && d >= 1 && m < s.len() && (is_upper(s[m])
        || is_lower(s[m])) && rest.len() >= 1 && run_len(rest, CharClass::Alnum) == rest.len() {
        Some(lowercase_of(s.take(m)))
    } else {
        None
    }
}

/// Lower-cased model of a microcontroller reference name: `STM32F030C6Tx` gives
/// `stm32f030`.
pub fn mcu_model(name: &str) -> (r: Option<String>)
    ensures
        r matches Some(x) ==> mcu_model_spec(name@) == Some(x@),
        r is None ==> mcu_model_spec(name@) is None,
{
    let cs = chars_of(name);
    let head = vec!['S', 'T', 'M', '3', '2'];
    if !has_at(&cs, 0, &head) {
        return None;
    }
    let u_end = scan_run(&cs, 5, &CharClass::Upper);
    let d_end = scan_run(&cs, u_end, &CharClass::Digit);
    if u_end == 5 || d_end == u_end || d_end >= cs.len() {
        return None;
    }
    let c = cs[d_end];
    if !(('A' <= c && c <= 'Z') || ('a' <= c && c <= 'z')) || d_end + 1 >= cs.len() {
        return None;
    }
    let r_end = scan_run(&cs, d_end + 1, &CharClass::Alnum);
    if r_end != cs.len() {
        return None;
    }
    let model = slice_string(&cs, 0, d_end);
    proof {
        assert(model@ =~= cs@.take(d_end as int));
    }
    Some(to_lowercase(model.as_str()))
}

pub open spec fn version_tail() -> Seq<char> {
    seq!['_', 'g', 'p', 'i', 'o', '_', 'v', '1', '_', '0']
}

pub open spec fn io_head() -> Seq<char> {
    seq!['i', 'o', '-']
}

/// The error for a GPIO revision without a feature: `Could not parse version`
/// and the revision as `{:?}` writes it.
pub open spec fn parse_version_msg(version: Seq<char>) -> Seq<char> {
    "Could not parse version "@ + debug_of(version)
}

/// The GPIO revisions that have a feature: `<name>_gpio_v1_0`, the name free of
/// underscores.
pub open spec fn feature_base_spec(s: Seq<char>) -> Option<Seq<char>> {
    let n = s.len() - 10;
    if s.len() >= 10 && occurs_at(s, n, version_tail()) && run_len(s, CharClass::NotUnderscore)
        >= n {
        Some(s.take(n))
    } else {
        None
    }
}

/// Feature name of a GPIO revision: `STM32L152x8_gpio_v1_0` gives `io-STM32L152x8`.
/// Other revisions than `v1_0`, and names with more underscores, are refused.
pub fn gpio_version_to_feature(version: &str) -> (r: Result<String, String>)
    ensures
        r matches Ok(f) ==> feature_base_spec(version@) matches Some(b) && f@ == io_head() + b,
        r matches Err(e) ==> feature_base_spec(version@) is None && e@ == parse_version_msg(version@),
{
    let cs = chars_of(version);
    let tail = vec!['_', 'g', 'p', 'i', 'o', '_', 'v', '1', '_', '0'];
    let ok = cs.len() >= 10 && has_at(&cs, cs.len() - 10, &tail) && scan_run(&cs, 0, &CharClass::NotUnderscore) >= cs.len() - 10;
    proof {
        assert(cs@.skip(0) =~= cs@);
    }
    if ok {
        let base = slice_string(&cs, 0, cs.len() - 10);
        let mut f: Vec<char> = vec!['i', 'o', '-'];
        let mut i: usize = 0;
        let n = cs.len() - 10;
        while i < n
            invariant
                n == cs.len() - 10,
                i <= n,
                f@ == io_head() + cs@.take(i as int),
            decreases n - i,
        {
            f.push(cs[i]);
            i = i + 1;
            assert(f@ =~= io_head() + cs@.take(i as int));
        }
        let out = crate::text::string_of(&f);
        proof {
            assert(base@ =~= cs@.take(n as int));
        }
        Ok(out)
    } else {
        let mut m = String::from_str("Could not parse version ");
        let d = debug_string(version);
        m.append(d.as_str());
        Err(m)
    }
}

/// The `n`-th field of `s` split at the characters outside class `c`, counting
/// from zero.
pub open spec fn field_by(s: Seq<char>, c: CharClass, n: nat) -> Option<Seq<char>>
    decreases s.len(),
{
    let k = run_len(s, c) as int;
    if n == 0 {
        Some(s.take(k))
    } else if k < s.len() {
        field_by(s.skip(k + 1), c, (n - 1) as nat)
    } else {
        None
    }
}

/// The `n`-th field of `s` split at underscores, counting from zero.
pub open spec fn field_spec(s: Seq<char>, n: nat) -> Option<Seq<char>> {
    field_by(s, CharClass::NotUnderscore, n)
}

/// The `n`-th underscore-separated field of `s`: field 2 of `GPIO_PIN_9` is `9`.
pub fn split_field(s: &str, n: usize) -> (r: Option<String>)
    ensures
        r matches Some(x) ==> field_spec(s@, n as nat) == Some(x@),
        r is None ==> field_spec(s@, n as nat) is None,
{
    split_by(s, &CharClass::NotUnderscore, n)
}

/// The `n`-th field of `s` split at the characters outside class `c`.
pub fn split_by(s: &str, c: &CharClass, n: usize) -> (r: Option<String>)
    ensures
        r matches Some(x) ==> field_by(s@, *c, n as nat) == Some(x@),
        r is None ==> field_by(s@, *c, n as nat) is None,
{
    let cs = chars_of(s);
    let mut pos: usize = 0;
    let mut f: usize = 0;
    proof {
        assert(cs@.skip(0) =~= cs@);
    }
    while f < n
        invariant
            f <= n,
            pos <= cs.len(),
            field_by(s@, *c, n as nat) == field_by(cs@.skip(pos as int), *c, (n - f) as nat),
        decreases n - f,
    {
        let e = scan_run(&cs, pos, c);
        proof {
            lemma_run_len_bound(cs@.skip(pos as int), *c);
        }
        if e == cs.len() {
            return None;
        }
        proof {
            assert(cs@.skip(pos as int).skip(e - pos + 1) =~= cs@.skip(e + 1));
        }
        pos = e + 1;
        f = f + 1;
    }
    let e = scan_run(&cs, pos, c);
    let r = slice_string(&cs, pos, e);
    proof {
        assert(r@ =~= cs@.skip(pos as int).take(e - pos));
    }
    Some(r)
}

} // verus!
