//! The records that the hardware database holds for one GPIO revision: its pins,
//! their parameters and the signals routed to them.

use vstd::prelude::*;
use crate::ident::{field_spec, split_field};
use crate::order::str_eq;

verus! {

/// The value of a parameter.
pub struct PossibleValue {
    pub val: String,
}

/// A named parameter of a pin or of a signal.
pub struct SpecificParameter {
    pub name: String,
    pub possible_value: PossibleValue,
}

/// A signal that a pin can carry, with its alternate-function literal as its
/// parameter.
pub struct PinSignal {
    pub name: String,
    pub specific_parameter: SpecificParameter,
}

/// One pin of a GPIO revision.
pub struct GPIOPin {
    /// Port of the pin, e.g. `PA`.
    pub port_name: String,
    pub name: String,
    pub specific_parameter: Vec<SpecificParameter>,
    pub pin_signal: Option<Vec<PinSignal>>,
}

/// All pins of a GPIO revision.
pub struct IpGPIO {
    pub gpio_pin: Vec<GPIOPin>,
}

pub open spec fn gpio_pin_param() -> Seq<char> {
    seq!['G', 'P', 'I', 'O', '_', 'P', 'i', 'n']
}

/// Value of the first parameter named `GPIO_Pin`.
pub open spec fn pin_param_value(ps: Seq<SpecificParameter>) -> Option<Seq<char>>
    decreases ps.len(),
{
    if ps.len() == 0 {
        None
    } else if ps[0].name@ == gpio_pin_param() {
        Some(ps[0].possible_value.val@)
    } else {
        pin_param_value(ps.drop_first())
    }
}

/// Name of a pin: its port followed by the third underscore-separated field of
/// its `GPIO_Pin` parameter (`PA` and `GPIO_PIN_9` give `PA9`).
pub open spec fn pin_name_spec(p: GPIOPin) -> Option<Seq<char>> {
    match pin_param_value(p.specific_parameter@) {
        Some(v) => match field_spec(v, 2) {
            Some(f) => Some(p.port_name@ + f),
            None => None,
        },
        None => None,
    }
}

impl GPIOPin {
    /// The pin's name, where it has a `GPIO_Pin` parameter with a third field.
    pub fn get_name(&self) -> (r: Option<String>)
        ensures
            r matches Some(n) ==> pin_name_spec(*self) == Some(n@),
            r is None ==> pin_name_spec(*self) is None,
    {
        let mut i: usize = 0;
        assert(self.specific_parameter@.skip(0) =~= self.specific_parameter@);
        while i < self.specific_parameter.len()
            invariant
                i <= self.specific_parameter.len(),
                pin_param_value(self.specific_parameter@) == pin_param_value(self.specific_parameter@.skip(i as int)),
            decreases self.specific_parameter.len() - i,
        {
            let ghost rest = self.specific_parameter@.skip(i as int);
            proof {
                reveal_strlit("GPIO_Pin");
                assert(rest.drop_first() =~= self.specific_parameter@.skip(i + 1));
                assert(rest[0] == self.specific_parameter@[i as int]);
            }
            if str_eq(self.specific_parameter[i].name.as_str(), "GPIO_Pin") {
                proof {
                    reveal_strlit("GPIO_Pin");
                    assert("GPIO_Pin"@ =~= gpio_pin_param());
                    assert(self.specific_parameter@[i as int].name@ == gpio_pin_param());
                    assert(pin_param_value(rest) == Some(self.specific_parameter@[i as int].possible_value.val@));
                }
                let v = self.specific_parameter[i].possible_value.val.as_str();
                assert(v@ == self.specific_parameter@[i as int].possible_value.val@);
                assert(pin_param_value(self.specific_parameter@) == Some(v@));
                let f = split_field(v, 2);
                match f {
                    Some(f) => {
                        let mut n = self.port_name.clone();
                        n.append(f.as_str());
                        assert(n@ == self.port_name@ + f@);
                        return Some(n);
                    },
                    None => {
                        return None;
                    },
                }
            }
            proof {
                assert("GPIO_Pin"@ =~= gpio_pin_param());
            }
            i = i + 1;
        }
        None
    }
}

} // verus!
