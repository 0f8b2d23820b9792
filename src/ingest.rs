//! Filling the aggregation tree from the pins of a GPIO revision. Malformed
//! names are never fatal: they are reported as notices and skipped.

use vstd::prelude::*;
use crate::ident::{
    af_code_spec, gpio_id_spec, mcu_model, mcu_model_spec, parse_gpio_id, parse_af_code, parse_pin_name, parse_signal_name, pin_parts_spec,
    signal_parts_spec,
};
use crate::model::{pin_name_spec, GPIOPin, IpGPIO, PinSignal};
use crate::order::{add_sorted, alnum_before, alnum_lt, set_alnum, str_eq, strs};
use crate::text::{chars_of, is_digit};
use crate::tree::{insert_entry, AfTree, GpioEntry, GpioKey, Leaf, LeafKey, Mcus};

verus! {

/// What a notice reports.
#[derive(Clone, Copy, Debug, PartialEq, Eq, Structural)]
pub enum NoticeKind {
    /// A pin-signal name outside the signal grammar; its subject is the name.
    UnparsedSignal,
    /// An alternate-function literal outside its grammar; its subject is the literal.
    UnparsedAf,
    /// A signal without a role whose stem is not one of the role-free ones; its
    /// subject is `<stem> (<device>)`. The stem stands in for the role.
    MissingRole,
    /// A pin name outside the pin grammar; its subject is the name.
    UnparsedPin,
    /// A second, different value under a key that has one; its subject is
    /// `<revision group>/<revision>`.
    Duplicate,
    /// A GPIO revision identifier outside its grammar; its subject is the identifier.
    UnparsedGpio,
    /// A microcontroller reference name outside its grammar; its subject is the name.
    UnparsedMcu,
    /// More than one revision under one revision group at one key path; only the
    /// first inserted is rendered. Its subject is the revision group.
    MultipleVersions,
}

/// A warning raised while the tree is filled.
pub struct Notice {
    pub kind: NoticeKind,
    pub subject: String,
}

pub type NoticeView = (NoticeKind, Seq<char>);

pub open spec fn notice_views(v: Seq<Notice>) -> Seq<NoticeView> {
    v.map_values(|n: Notice| (n.kind, n.subject@))
}

pub open spec fn eventout() -> Seq<char> {
    seq!['E', 'V', 'E', 'N', 'T', 'O', 'U', 'T']
}

pub open spec fn cec() -> Seq<char> {
    seq!['C', 'E', 'C']
}

/// The stems whose signals legitimately have no role.
pub open spec fn role_free(stem: Seq<char>) -> bool {
    stem == eventout() || stem == cec()
}

pub open spec fn digit_value(c: char) -> nat {
    ((c as u32) - ('0' as u32)) as nat
}

/// Decimal value of a run of digits.
pub open spec fn digits_value(s: Seq<char>) -> nat
    decreases s.len(),
{
    if s.len() == 0 {
        0
    } else {
        digits_value(s.drop_last()) * 10 + digit_value(s.last())
    }
}

/// Port (`P` and its letters) and number of a pin name: `PA10` gives (`PA`, 10).
pub open spec fn pin_location_spec(pin: Seq<char>) -> Option<(Seq<char>, u32)> {
    match pin_parts_spec(pin) {
        Some((letters, digits)) => if digits_value(digits) <= u32::MAX {
            Some((seq!['P'] + letters, digits_value(digits) as u32))
        } else {
            None
        },
        None => None,
    }
}

/// Key path of a signal of pin `pin` in revision `(g, v)`, where its name, its
/// literal and the pin name parse; and the notices that parsing raises.
pub open spec fn signal_outcome(pin: Seq<char>, name: Seq<char>, lit: Seq<char>, g: Seq<char>, v: Seq<char>) -> (Option<LeafKey>, Seq<NoticeView>) {
    match signal_parts_spec(name) {
        None => (None, seq![(NoticeKind::UnparsedSignal, name)]),
        Some((stem, dev, io)) => match af_code_spec(lit) {
            None => (None, seq![(NoticeKind::UnparsedAf, lit)]),
            Some(af) => {
                let role = match io {
                    Some(r) => r,
                    None => stem,
                };
                let warn = if io is None && !role_free(stem) {
                    seq![(NoticeKind::MissingRole, role_subject(stem, dev))]
                } else {
                    Seq::empty()
                };
                match pin_location_spec(pin) {
                    None => (None, warn + seq![(NoticeKind::UnparsedPin, pin)]),
                    Some((port, num)) => (Some(((stem, dev), (af, role), (port, num), (g, v))), warn),
                }
            },
        },
    }
}

/// A parsed signal name without a role is kept, not rejected: its stem stands in
/// for the role, and a notice names its stem and device unless the stem is one of the
/// role-free ones.
pub proof fn lemma_missing_role_fallback(pin: Seq<char>, name: Seq<char>, lit: Seq<char>, g: Seq<char>, v: Seq<char>)
    requires
        signal_parts_spec(name) matches Some((_, _, io)) && io is None,
        af_code_spec(lit) is Some,
        pin_location_spec(pin) is Some,
    ensures
        ({
            let (stem, dev, _) = signal_parts_spec(name)->0;
            let (k, ns) = signal_outcome(pin, name, lit, g, v);
            &&& k matches Some(key) && key.1.1 == stem && key.0 == (stem, dev)
            &&& ns == if role_free(stem) {
                Seq::<NoticeView>::empty()
            } else {
                seq![(NoticeKind::MissingRole, role_subject(stem, dev))]
            }
        }),
{
}

/// Subject of a missing-role notice: `<stem> (<device>)`.
pub open spec fn role_subject(stem: Seq<char>, dev: Seq<char>) -> Seq<char> {
    stem + " ("@ + dev + ")"@
}

/// Subject of a duplicate notice for revision `(g, v)`.
pub open spec fn gpio_subject(g: Seq<char>, v: Seq<char>) -> Seq<char> {
    g + seq!['/'] + v
}

/// State of the tree (its leaves) and the notices raised so far.
pub type FillState = (Seq<(LeafKey, Mcus)>, Seq<NoticeView>);

/// One signal of pin `pin` inserted with the models `m` of revision `(g, v)`.
pub open spec fn apply_signal(st: FillState, pin: Seq<char>, sig: PinSignal, g: Seq<char>, v: Seq<char>, m: Mcus) -> FillState {
    let (k, ns) = signal_outcome(pin, sig.name@, sig.specific_parameter.possible_value.val@, g, v);
    match k {
        None => (st.0, st.1 + ns),
        Some(k) => {
            let (es, c) = insert_entry(st.0, k, m);
            (es, st.1 + ns + if c {
                seq![(NoticeKind::Duplicate, gpio_subject(g, v))]
            } else {
                Seq::<NoticeView>::empty()
            })
        },
    }
}

/// The signals `sigs`, in order, each inserted as by [`apply_signal`].
pub open spec fn apply_signals(st: FillState, pin: Seq<char>, sigs: Seq<PinSignal>, g: Seq<char>, v: Seq<char>, m: Mcus) -> FillState
    decreases sigs.len(),
{
    if sigs.len() == 0 {
        st
    } else {
        apply_signal(apply_signals(st, pin, sigs.drop_last(), g, v, m), pin, sigs.last(), g, v, m)
    }
}

pub open spec fn signals_of(p: GPIOPin) -> Seq<PinSignal> {
    match p.pin_signal {
        Some(v) => v@,
        None => Seq::empty(),
    }
}

proof fn lemma_digits_grow(s: Seq<char>, i: int)
    requires
        0 <= i <= s.len(),
    ensures
        digits_value(s.take(i)) <= digits_value(s),
    decreases s.len(),
{
    if i < s.len() {
        assert(s.drop_last().take(i) =~= s.take(i));
        lemma_digits_grow(s.drop_last(), i);
    } else {
        assert(s.take(i) =~= s);
    }
}

/// Value of the digits `cs`, where it fits in a `u32`.
pub fn digits_to_u32(cs: &Vec<char>, from: usize) -> (r: Option<u32>)
    requires
        from <= cs.len(),
        forall|k: int| from <= k < cs.len() ==> is_digit(#[trigger] cs@[k]),
    ensures
        r matches Some(n) ==> digits_value(cs@.skip(from as int)) == n as nat,
        r is None ==> digits_value(cs@.skip(from as int)) > u32::MAX,
{
    let ghost s = cs@.skip(from as int);
    let mut v: u32 = 0;
    let mut i: usize = from;
    assert(s.take(0) =~= Seq::<char>::empty());
    while i < cs.len()
        invariant
            from <= i <= cs.len(),
            s == cs@.skip(from as int),
            forall|k: int| from <= k < cs.len() ==> is_digit(#[trigger] cs@[k]),
            v as nat == digits_value(s.take(i - from)),
        decreases cs.len() - i,
    {
        let c = cs[i];
        let d: u32 = (c as u32) - ('0' as u32);
        proof {
            assert(s.take(i - from + 1).drop_last() =~= s.take(i - from));
            assert(s.take(i - from + 1).last() == c);
        }
        if v > (u32::MAX - d) / 10 {
            proof {
                assert(v * 10 + d > u32::MAX) by (nonlinear_arith)
                    requires
                        v > (u32::MAX - d) / 10,
                        d <= 9,
                ;
                lemma_digits_grow(s, i - from + 1);
            }
            return None;
        }
        proof {
            assert(v * 10 + d <= u32::MAX) by (nonlinear_arith)
                requires
                    v <= (u32::MAX - d) / 10,
                    d <= 9,
            ;
        }
        v = v * 10 + d;
        i = i + 1;
    }
    assert(s.take(cs.len() - from) =~= s);
    Some(v)
}

/// Port and number of a pin name, as [`pin_location_spec`] gives them.
pub fn pin_location(pin: &str) -> (r: Option<(String, u32)>)
    ensures
        r matches Some(x) ==> pin_location_spec(pin@) == Some((x.0@, x.1)),
        r is None ==> pin_location_spec(pin@) is None,
{
    match parse_pin_name(pin) {
        None => None,
        Some((letters, digits)) => {
            let ds = chars_of(digits.as_str());
            proof {
                assert(ds@.skip(0) =~= ds@);
                crate::text::lemma_run_len_bound(pin@.skip(1 + letters@.len() as int), crate::text::CharClass::Digit);
                assert forall|k: int| 0 <= k < ds.len() implies is_digit(#[trigger] ds@[k]) by {
                    assert(ds@[k] == pin@.skip(1 + letters@.len() as int)[k]);
                }
            }
            match digits_to_u32(&ds, 0) {
                None => None,
                Some(n) => {
                    let mut port = String::from_str("P");
                    proof {
                        reveal_strlit("P");
                    }
                    port.append(letters.as_str());
                    assert(port@ =~= seq!['P'] + letters@);
                    Some((port, n))
                },
            }
        },
    }
}


fn notice(kind: NoticeKind, subject: String, notices: &mut Vec<Notice>)
    ensures
        notice_views(final(notices)@) == notice_views(old(notices)@).push((kind, subject@)),
{
    let ghost before = notices@;
    notices.push(Notice { kind, subject });
    assert(notice_views(notices@) =~= notice_views(before).push((kind, subject@)));
}

/// Inserts one signal of the pin named `pin`, as [`apply_signal`] says.
fn process_signal(pin: &str, sig: &PinSignal, g: &str, v: &str, mcus: &Vec<String>, af_tree: &mut AfTree, notices: &mut Vec<Notice>)
    requires
        old(af_tree).wf(),
    ensures
        final(af_tree).wf(),
        final(af_tree).gpios() == old(af_tree).gpios(),
        (final(af_tree).leaves(), notice_views(final(notices)@)) == apply_signal(
            (old(af_tree).leaves(), notice_views(old(notices)@)),
            pin@,
            *sig,
            g@,
            v@,
            strs(mcus@),
        ),
{
    let ghost ns0 = notice_views(notices@);
    let parts = match parse_signal_name(sig.name.as_str()) {
        Some(p) => p,
        None => {
            notice(NoticeKind::UnparsedSignal, sig.name.clone(), notices);
            return;
        },
    };
    let lit = &sig.specific_parameter.possible_value.val;
    let af = match parse_af_code(lit.as_str()) {
        Some(a) => a,
        None => {
            notice(NoticeKind::UnparsedAf, lit.clone(), notices);
            return;
        },
    };
    let role_given = parts.io.is_some();
    let free = str_eq(parts.stem.as_str(), "EVENTOUT") || str_eq(parts.stem.as_str(), "CEC");
    proof {
        reveal_strlit("EVENTOUT");
        reveal_strlit("CEC");
        assert("EVENTOUT"@ =~= eventout());
        assert("CEC"@ =~= cec());
    }
    if !role_given && !free {
        let mut subject = parts.stem.clone();
        subject.append(" (");
        subject.append(parts.device.as_str());
        subject.append(")");
        notice(NoticeKind::MissingRole, subject, notices);
    }
    let ghost ns1 = notice_views(notices@);
    let io = match parts.io {
        Some(r) => r,
        None => parts.stem.clone(),
    };
    let (port, number) = match pin_location(pin) {
        Some(x) => x,
        None => {
            notice(NoticeKind::UnparsedPin, String::from_str(pin), notices);
            assert(notice_views(notices@) =~= ns0 + signal_outcome(pin@, sig.name@, lit@, g@, v@).1);
            return;
        },
    };
    assert(ns1 =~= ns0 + signal_outcome(pin@, sig.name@, lit@, g@, v@).1);
    let leaf = Leaf {
        stem: parts.stem,
        device: parts.device,
        af,
        io,
        port,
        number,
        group: String::from_str(g),
        version: String::from_str(v),
        mcus: crate::order::clone_strs(mcus),
    };
    let conflict = af_tree.insert(leaf);
    if conflict {
        let mut subject = String::from_str(g);
        subject.append("/");
        subject.append(v);
        proof {
            reveal_strlit("/");
            assert(subject@ =~= gpio_subject(g@, v@));
        }
        notice(NoticeKind::Duplicate, subject, notices);
    } else {
        assert(notice_views(notices@) =~= ns1 + Seq::<NoticeView>::empty());
    }
}

impl GPIOPin {
    /// Inserts every signal of this pin into `af_tree` under revision
    /// `(gpio_mcu, gpio_version)` with the models `mcus`, in order, as
    /// [`apply_signals`] says; returns the notices raised. A pin without a name
    /// changes nothing and raises no notice.
    pub fn update_af_tree(&self, gpio_mcu: &str, gpio_version: &str, mcus: &Vec<String>, af_tree: &mut AfTree) -> (notices: Vec<Notice>)
        requires
            old(af_tree).wf(),
        ensures
            final(af_tree).wf(),
            final(af_tree).gpios() == old(af_tree).gpios(),
            pin_name_spec(*self) is None ==> final(af_tree).leaves() == old(af_tree).leaves() && notices@.len() == 0,
            pin_name_spec(*self) is Some ==> (final(af_tree).leaves(), notice_views(notices@)) == apply_signals(
                (old(af_tree).leaves(), Seq::empty()),
                pin_name_spec(*self)->0,
                signals_of(*self),
                gpio_mcu@,
                gpio_version@,
                strs(mcus@),
            ),
    {
        let mut notices: Vec<Notice> = Vec::new();
        let pin = match self.get_name() {
            Some(n) => n,
            None => {
                return notices;
            },
        };
        let ghost m = strs(mcus@);
        let ghost start: FillState = (af_tree.leaves(), Seq::empty());
        assert(notice_views(notices@) =~= Seq::<NoticeView>::empty());
        match &self.pin_signal {
            None => {},
            Some(sigs) => {
                let mut i: usize = 0;
                assert(sigs@.take(0) =~= Seq::<PinSignal>::empty());
                while i < sigs.len()
                    invariant
                        i <= sigs.len(),
                        af_tree.wf(),
                        af_tree.gpios() == old(af_tree).gpios(),
                        start == (old(af_tree).leaves(), Seq::<NoticeView>::empty()),
                        (af_tree.leaves(), notice_views(notices@)) == apply_signals(start, pin@, sigs@.take(i as int), gpio_mcu@, gpio_version@, m),
                        m == strs(mcus@),
                    decreases sigs.len() - i,
                {
                    proof {
                        assert(sigs@.take(i + 1).drop_last() =~= sigs@.take(i as int));
                    }
                    process_signal(pin.as_str(), &sigs[i], gpio_mcu, gpio_version, mcus, af_tree, &mut notices);
                    i = i + 1;
                }
                assert(sigs@.take(sigs.len() as int) =~= sigs@);
            },
        }
        notices
    }
}


proof fn lemma_apply_signals_notices(es: Seq<(LeafKey, Mcus)>, ns: Seq<NoticeView>, pin: Seq<char>, sigs: Seq<PinSignal>, g: Seq<char>, v: Seq<char>, m: Mcus)
    ensures
        ({
            let a = apply_signals((es, ns), pin, sigs, g, v, m);
            let b = apply_signals((es, Seq::empty()), pin, sigs, g, v, m);
            a.0 == b.0 && a.1 == ns + b.1
        }),
    decreases sigs.len(),
{
    if sigs.len() > 0 {
        lemma_apply_signals_notices(es, ns, pin, sigs.drop_last(), g, v, m);
        let a = apply_signals((es, ns), pin, sigs.drop_last(), g, v, m);
        let b = apply_signals((es, Seq::empty()), pin, sigs.drop_last(), g, v, m);
        let (k, xs) = signal_outcome(pin, sigs.last().name@, sigs.last().specific_parameter.possible_value.val@, g, v);
        match k {
            None => {
                assert(a.1 + xs =~= ns + (b.1 + xs));
            },
            Some(k) => {
                let (_, c) = insert_entry(a.0, k, m);
                let d = if c {
                    seq![(NoticeKind::Duplicate, gpio_subject(g, v))]
                } else {
                    Seq::<NoticeView>::empty()
                };
                assert(a.1 + xs + d =~= ns + (b.1 + xs + d));
            },
        }
    }
}

/// Models of the reference names `ms` that parse, in order.
pub open spec fn mcu_models(ms: Seq<Seq<char>>) -> Seq<Seq<char>>
    decreases ms.len(),
{
    if ms.len() == 0 {
        Seq::empty()
    } else {
        match mcu_model_spec(ms.last()) {
            Some(x) => mcu_models(ms.drop_last()).push(x),
            None => mcu_models(ms.drop_last()),
        }
    }
}

/// A notice for each reference name of `ms` that does not parse, in order.
pub open spec fn mcu_notices(ms: Seq<Seq<char>>) -> Seq<NoticeView>
    decreases ms.len(),
{
    if ms.len() == 0 {
        Seq::empty()
    } else {
        match mcu_model_spec(ms.last()) {
            Some(_) => mcu_notices(ms.drop_last()),
            None => mcu_notices(ms.drop_last()).push((NoticeKind::UnparsedMcu, ms.last())),
        }
    }
}

/// The signals of the pins `pins` that have a name, pin after pin.
pub open spec fn apply_pins(st: FillState, pins: Seq<GPIOPin>, g: Seq<char>, v: Seq<char>, m: Mcus) -> FillState
    decreases pins.len(),
{
    if pins.len() == 0 {
        st
    } else {
        let st1 = apply_pins(st, pins.drop_last(), g, v, m);
        match pin_name_spec(pins.last()) {
            Some(n) => apply_signals(st1, n, signals_of(pins.last()), g, v, m),
            None => st1,
        }
    }
}

/// A GPIO revision `id` with the reference names `ms` of its microcontrollers and
/// its pins: the revisions and leaves after it, and the notices it raises.
pub open spec fn add_gpio_spec(gpios: Seq<(GpioKey, Mcus)>, leaves: Seq<(LeafKey, Mcus)>, id: Seq<char>, ms: Seq<Seq<char>>, pins: Seq<GPIOPin>) -> (Seq<(GpioKey, Mcus)>, Seq<(LeafKey, Mcus)>, Seq<NoticeView>) {
    match gpio_id_spec(id) {
        None => (gpios, leaves, seq![(NoticeKind::UnparsedGpio, id)]),
        Some((g, v)) => {
            let m = set_alnum(mcu_models(ms));
            let (gs, dup) = insert_entry(gpios, (g, v), m);
            let ns = mcu_notices(ms) + if dup {
                seq![(NoticeKind::Duplicate, gpio_subject(g, v))]
            } else {
                Seq::<NoticeView>::empty()
            };
            let (ls, ns2) = apply_pins((leaves, ns), pins, g, v, m);
            (gs, ls, ns2)
        },
    }
}

impl AfTree {
    /// Adds a GPIO revision, with the reference names of the microcontrollers that
    /// use it and its pins, as [`add_gpio_spec`] says; returns the notices raised.
    pub fn add_gpio(&mut self, gpio: &str, mcus: &Vec<String>, pins: &Vec<GPIOPin>) -> (notices: Vec<Notice>)
        requires
            old(self).wf(),
        ensures
            final(self).wf(),
            (final(self).gpios(), final(self).leaves(), notice_views(notices@)) == add_gpio_spec(
                old(self).gpios(),
                old(self).leaves(),
                gpio@,
                strs(mcus@),
                pins@,
            ),
    {
        let mut notices: Vec<Notice> = Vec::new();
        let (g, v) = match parse_gpio_id(gpio) {
            Some(x) => x,
            None => {
                notice(NoticeKind::UnparsedGpio, String::from_str(gpio), &mut notices);
                assert(notice_views(notices@) =~= seq![(NoticeKind::UnparsedGpio, gpio@)]);
                return notices;
            },
        };
        let ghost ms = strs(mcus@);
        let mut models: Vec<String> = Vec::new();
        let ghost found: Seq<Seq<char>> = Seq::empty();
        let mut i: usize = 0;
        assert(notice_views(notices@) =~= Seq::<NoticeView>::empty());
        assert(strs(models@) =~= Seq::<Seq<char>>::empty());
        while i < mcus.len()
            invariant
                i <= mcus.len(),
                ms == strs(mcus@),
                self.wf(),
                self == old(self),
                strs(models@) == set_alnum(mcu_models(ms.take(i as int))),
                notice_views(notices@) == mcu_notices(ms.take(i as int)),
            decreases mcus.len() - i,
        {
            proof {
                assert(ms.take(i + 1).drop_last() =~= ms.take(i as int));
                assert(ms.take(i + 1).last() == mcus@[i as int]@);
            }
            match mcu_model(mcus[i].as_str()) {
                Some(x) => {
                    proof {
                        assert(mcu_models(ms.take(i + 1)) == mcu_models(ms.take(i as int)).push(x@));
                        assert(mcu_models(ms.take(i + 1)).drop_last() =~= mcu_models(ms.take(i as int)));
                    }
                    add_sorted(&mut models, x);
                },
                None => {
                    notice(NoticeKind::UnparsedMcu, mcus[i].clone(), &mut notices);
                },
            }
            i = i + 1;
        }
        assert(ms.take(mcus.len() as int) =~= ms);
        let ghost m = strs(models@);
        let entry = GpioEntry {
            group: String::from_str(g.as_str()),
            version: String::from_str(v.as_str()),
            mcus: crate::order::clone_strs(&models),
        };
        let dup = self.register_gpio(entry);
        let ghost ns = notice_views(notices@);
        if dup {
            let mut subject = String::from_str(g.as_str());
            subject.append("/");
            subject.append(v.as_str());
            proof {
                reveal_strlit("/");
                assert(subject@ =~= gpio_subject(g@, v@));
            }
            notice(NoticeKind::Duplicate, subject, &mut notices);
        } else {
            assert(notice_views(notices@) =~= ns + Seq::<NoticeView>::empty());
        }
        let ghost start: FillState = (self.leaves(), notice_views(notices@));
        assert(self.leaves() == old(self).leaves());
        assert(notice_views(notices@) == mcu_notices(ms) + if dup {
            seq![(NoticeKind::Duplicate, gpio_subject(g@, v@))]
        } else {
            Seq::<NoticeView>::empty()
        });
        let mut j: usize = 0;
        assert(pins@.take(0) =~= Seq::<GPIOPin>::empty());
        while j < pins.len()
            invariant
                j <= pins.len(),
                self.wf(),
                m == strs(models@),
                (self.leaves(), notice_views(notices@)) == apply_pins(start, pins@.take(j as int), g@, v@, m),
                self.gpios() == insert_entry(old(self).gpios(), (g@, v@), m).0,
            decreases pins.len() - j,
        {
            proof {
                assert(pins@.take(j + 1).drop_last() =~= pins@.take(j as int));
                assert(pins@.take(j + 1).last() == pins@[j as int]);
            }
            let p = &pins[j];
            if p.get_name().is_some() {
                let ghost es = self.leaves();
                let ghost ns0 = notice_views(notices@);
                let ghost before = notices@;
                let mut more = p.update_af_tree(g.as_str(), v.as_str(), &models, self);
                proof {
                    lemma_apply_signals_notices(es, ns0, pin_name_spec(*p)->0, signals_of(*p), g@, v@, m);
                }
                let ghost more0 = more@;
                notices.append(&mut more);
                proof {
                    assert(notices@ == before + more0);
                    assert(notice_views(notices@) =~= ns0 + notice_views(more0));
                }
            }
            j = j + 1;
        }
        assert(pins@.take(pins.len() as int) =~= pins@);
        notices
    }
}


/// A loaded GPIO revision: its identifier, the reference names of the
/// microcontrollers that use it, and its pins.
pub struct GpioSource {
    pub gpio: String,
    pub mcus: Vec<String>,
    pub ip: IpGPIO,
}

/// The revisions, leaves and notices after adding `srcs` in order to an empty tree.
pub open spec fn fill_spec(srcs: Seq<GpioSource>) -> (Seq<(GpioKey, Mcus)>, Seq<(LeafKey, Mcus)>, Seq<NoticeView>)
    decreases srcs.len(),
{
    if srcs.len() == 0 {
        (Seq::empty(), Seq::empty(), Seq::empty())
    } else {
        let prev = fill_spec(srcs.drop_last());
        let s = srcs.last();
        let (g, l, n) = add_gpio_spec(prev.0, prev.1, s.gpio@, strs(s.mcus@), s.ip.gpio_pin@);
        (g, l, prev.2 + n)
    }
}

/// `s` with `x` placed before its first source whose identifier `x`'s comes
/// strictly before in the numeric-aware order.
pub open spec fn insert_source(x: GpioSource, s: Seq<GpioSource>) -> Seq<GpioSource>
    decreases s.len(),
{
    if s.len() == 0 {
        seq![x]
    } else if alnum_lt(x.gpio@, s[0].gpio@) {
        seq![x] + s
    } else {
        seq![s[0]] + insert_source(x, s.drop_first())
    }
}

/// Insertion sort of sources by identifier, in the numeric-aware order; sources
/// with equal identifiers keep their order.
pub open spec fn sorted_sources(s: Seq<GpioSource>) -> Seq<GpioSource>
    decreases s.len(),
{
    if s.len() == 0 {
        s
    } else {
        insert_source(s.last(), sorted_sources(s.drop_last()))
    }
}

proof fn lemma_insert_source_at(x: GpioSource, s: Seq<GpioSource>, j: int)
    requires
        0 <= j <= s.len(),
        forall|i: int| 0 <= i < j ==> !alnum_lt(x.gpio@, #[trigger] s[i].gpio@),
        j < s.len() ==> alnum_lt(x.gpio@, s[j].gpio@),
    ensures
        insert_source(x, s) == s.take(j) + seq![x] + s.skip(j),
    decreases s.len(),
{
    if s.len() == 0 {
        assert(s.take(j) + seq![x] + s.skip(j) =~= seq![x]);
    } else if j == 0 {
        assert(s.take(j) + seq![x] + s.skip(j) =~= seq![x] + s);
    } else {
        let t = s.drop_first();
        assert forall|i: int| 0 <= i < j - 1 implies !alnum_lt(x.gpio@, #[trigger] t[i].gpio@) by {
            assert(t[i] == s[i + 1]);
        }
        lemma_insert_source_at(x, t, j - 1);
        assert(s.take(j) + seq![x] + s.skip(j) =~= seq![s[0]] + (t.take(j - 1) + seq![x] + t.skip(j - 1)));
    }
}

fn insert_source_exec(v: &mut Vec<GpioSource>, x: GpioSource)
    ensures
        final(v)@ == insert_source(x, old(v)@),
{
    let ghost s = v@;
    let mut j: usize = 0;
    while j < v.len() && !alnum_before(x.gpio.as_str(), v[j].gpio.as_str())
        invariant
            j <= v.len(),
            s == v@,
            forall|i: int| 0 <= i < j ==> !alnum_lt(x.gpio@, #[trigger] s[i].gpio@),
        decreases v.len() - j,
    {
        j = j + 1;
    }
    proof {
        lemma_insert_source_at(x, s, j as int);
    }
    v.insert(j, x);
    assert(v@ =~= s.take(j as int) + seq![x] + s.skip(j as int));
}

/// The sources sorted by identifier, as [`sorted_sources`] says.
pub fn sort_sources(sources: Vec<GpioSource>) -> (r: Vec<GpioSource>)
    ensures
        r@ == sorted_sources(sources@),
{
    let ghost all = sources@;
    assert(all.len() == sources.len());
    let mut rest = sources;
    let mut sorted: Vec<GpioSource> = Vec::new();
    let mut i: usize = 0;
    assert(all.skip(0) =~= all);
    while rest.len() > 0
        invariant
            i <= all.len(),
            all.len() <= usize::MAX,
            rest@ == all.skip(i as int),
            sorted@ == sorted_sources(all.take(i as int)),
        decreases rest.len(),
    {
        proof {
            assert(all.take(i + 1).drop_last() =~= all.take(i as int));
            assert(all.take(i + 1).last() == rest@[0]);
        }
        assert(i < all.len());
        let x = rest.remove(0);
        insert_source_exec(&mut sorted, x);
        i = i + 1;
        assert(rest@ =~= all.skip(i as int));
    }
    assert(all.take(i as int) =~= all);
    sorted
}

impl AfTree {
    /// The tree of the revisions `sources`, added in the numeric-aware order of
    /// their identifiers (as [`sorted_sources`] orders them), with the notices
    /// raised. Of two conflicting revisions, the one whose identifier comes first
    /// stays.
    pub fn build_from(sources: Vec<GpioSource>) -> (r: (AfTree, Vec<Notice>))
        ensures
            r.0.wf(),
            (r.0.gpios(), r.0.leaves(), notice_views(r.1@)) == fill_spec(sorted_sources(sources@)),
    {
        let sorted = sort_sources(sources);
        AfTree::fill_in_order(&sorted)
    }

    /// The tree of the revisions `sources`, added in the order given, with the
    /// notices raised.
    fn fill_in_order(sources: &Vec<GpioSource>) -> (r: (AfTree, Vec<Notice>))
        ensures
            r.0.wf(),
            (r.0.gpios(), r.0.leaves(), notice_views(r.1@)) == fill_spec(sources@),
    {
        let mut af = AfTree::new();
        let mut notices: Vec<Notice> = Vec::new();
        let mut i: usize = 0;
        assert(sources@.take(0) =~= Seq::<GpioSource>::empty());
        assert(notice_views(notices@) =~= Seq::<NoticeView>::empty());
        while i < sources.len()
            invariant
                i <= sources.len(),
                af.wf(),
                (af.gpios(), af.leaves(), notice_views(notices@)) == fill_spec(sources@.take(i as int)),
            decreases sources.len() - i,
        {
            proof {
                assert(sources@.take(i + 1).drop_last() =~= sources@.take(i as int));
            }
            let src = &sources[i];
            let ghost before = notices@;
            let mut more = af.add_gpio(src.gpio.as_str(), &src.mcus, &src.ip.gpio_pin);
            let ghost m0 = more@;
            notices.append(&mut more);
            assert(notice_views(notices@) =~= notice_views(before) + notice_views(m0));
            i = i + 1;
        }
        assert(sources@.take(sources.len() as int) =~= sources@);
        (af, notices)
    }
}

} // verus!
