use cube_parse::ident::{
    mcu_model, parse_af_code, parse_gpio_id, parse_pin_name, parse_signal_name, split_field,
};
use cube_parse::model::{GPIOPin, PossibleValue, SpecificParameter};
use cube_parse::order::{sort_alnum, SortedString, ToSortedString};
use cube_parse::text::{pascal_case, ToPascalCase};
use cube_parse::ingest::pin_location;
use cube_parse::render::decimal_string;
use std::cmp::Ordering;

fn parts(name: &str) -> Option<(String, String, Option<String>)> {
    parse_signal_name(name).map(|p| (p.stem, p.device, p.io))
}

#[test]
fn signal_usart2_tx() {
    assert_eq!(
        parts("USART2_TX"),
        Some(("USART".to_string(), "USART2".to_string(), Some("TX".to_string())))
    );
}

#[test]
fn signal_i2c1_scl() {
    assert_eq!(
        parts("I2C1_SCL"),
        Some(("I2C".to_string(), "I2C1".to_string(), Some("SCL".to_string())))
    );
}

#[test]
fn signal_irregular_prefixes() {
    assert_eq!(
        parts("FMPI2C1_SDA"),
        Some(("FMPI2C".to_string(), "FMPI2C1".to_string(), Some("SDA".to_string())))
    );
    assert_eq!(
        parts("USB_OTG_FS_DP"),
        Some(("USB_OTG_FS".to_string(), "USB_OTG_FS".to_string(), Some("DP".to_string())))
    );
    assert_eq!(
        parts("I2S2_CK"),
        Some(("I2S".to_string(), "I2S2".to_string(), Some("CK".to_string())))
    );
    // the prefix is dropped where the rest does not parse with it
    assert_eq!(parts("I22"), Some(("I".to_string(), "I22".to_string(), None)));
}

#[test]
fn signal_roles_and_ext() {
    assert_eq!(
        parts("TIM3_CH1N"),
        Some(("TIM".to_string(), "TIM3".to_string(), Some("CH1N".to_string())))
    );
    assert_eq!(
        parts("SYS_JTMS-SWDIO"),
        Some(("SYS".to_string(), "SYS".to_string(), Some("JTMS-SWDIO".to_string())))
    );
    assert_eq!(
        parts("TIMext_X"),
        Some(("TIM".to_string(), "TIMext".to_string(), Some("X".to_string())))
    );
    assert_eq!(parts("EVENTOUT"), Some(("EVENTOUT".to_string(), "EVENTOUT".to_string(), None)));
}

#[test]
fn signal_rejected() {
    assert!(parts("usart2_tx").is_none());
    assert!(parts("USART2_").is_none());
    assert!(parts("USART2_T X").is_none());
    assert!(parts("").is_none());
}

#[test]
fn af_literals() {
    assert_eq!(parse_af_code("GPIO_AF7_USART2"), Some("AF7".to_string()));
    assert_eq!(parse_af_code("GPIO_AF10_OTG_FS"), Some("AF10".to_string()));
    assert_eq!(parse_af_code("GPIO_AF7"), None);
    assert_eq!(parse_af_code("GPIO__USART2"), None);
    assert_eq!(parse_af_code("GPIOX_AF7_USART2"), None);
}

#[test]
fn pin_names() {
    assert_eq!(parse_pin_name("PA10"), Some(("A".to_string(), "10".to_string())));
    assert_eq!(parse_pin_name("PC13"), Some(("C".to_string(), "13".to_string())));
    assert_eq!(parse_pin_name("PA"), None);
    assert_eq!(parse_pin_name("A10"), None);
    assert_eq!(parse_pin_name("PA1x"), None);
}

#[test]
fn gpio_identifiers() {
    assert_eq!(
        parse_gpio_id("STM32F333_gpio_v1_0"),
        Some(("STM32F333".to_string(), "gpio_v1_0".to_string()))
    );
    assert_eq!(parse_gpio_id("STM32F333_gpio_"), None);
    assert_eq!(parse_gpio_id("STM32F333_qqio_v1_0"), None);
    assert_eq!(parse_gpio_id("_gpio_v1_0"), None);
}

#[test]
fn mcu_models() {
    assert_eq!(mcu_model("STM32F030C6Tx"), Some("stm32f030".to_string()));
    assert_eq!(mcu_model("STM32L011D3Px"), Some("stm32l011".to_string()));
    assert_eq!(mcu_model("STM32F030C"), None);
    assert_eq!(mcu_model("STM32F030"), None);
    assert_eq!(mcu_model("STM33F030C6Tx"), None);
}

#[test]
fn underscore_fields() {
    assert_eq!(split_field("GPIO_PIN_9", 2), Some("9".to_string()));
    assert_eq!(split_field("GPIO_PIN_9", 0), Some("GPIO".to_string()));
    assert_eq!(split_field("GPIO_PIN", 2), None);
    assert_eq!(split_field("a__b", 1), Some("".to_string()));
}

#[test]
fn pin_get_name() {
    let pin = GPIOPin {
        port_name: "PA".to_string(),
        name: "PA9".to_string(),
        specific_parameter: vec![
            SpecificParameter {
                name: "Other".to_string(),
                possible_value: PossibleValue { val: "X_Y_Z".to_string() },
            },
            SpecificParameter {
                name: "GPIO_Pin".to_string(),
                possible_value: PossibleValue { val: "GPIO_PIN_9".to_string() },
            },
        ],
        pin_signal: None,
    };
    assert_eq!(pin.get_name(), Some("PA9".to_string()));
    let bare = GPIOPin {
        port_name: "PA".to_string(),
        name: "PA9".to_string(),
        specific_parameter: vec![],
        pin_signal: None,
    };
    assert_eq!(bare.get_name(), None);
}

#[test]
fn pascal_case_segments() {
    assert_eq!(pascal_case("TX"), "Tx");
    assert_eq!(pascal_case("CH1N"), "Ch1N");
    assert_eq!(pascal_case("tx_en"), "TxEn");
    assert_eq!(pascal_case("JTMS-SWDIO"), "JtmsSwdio");
    assert_eq!(pascal_case("ABc"), "AbC");
    assert_eq!("SCL".to_pascalcase(), "Scl");
    assert_eq!(pascal_case(""), "");
}

#[test]
fn numeric_aware_order() {
    let v = vec!["PA10".to_string(), "PA2".to_string(), "PB1".to_string()];
    assert_eq!(sort_alnum(&v), vec!["PA2".to_string(), "PA10".to_string(), "PB1".to_string()]);
    let a = "PA2".to_sorted_string();
    let b = SortedString("PA10".to_string());
    assert_eq!(a.compare(&b), Ordering::Less);
    assert_eq!(b.compare(&a), Ordering::Greater);
    assert_eq!(a.as_str(), "PA2");
}

#[test]
fn long_lists_are_wrapped_in_order() {
    let items: Vec<String> = (0..16).map(|i| format!("PA{}", i)).collect();
    let mut out = String::new();
    cube_parse::text::push_wrapped(&mut out, &items);
    assert_eq!(
        out,
        "\n        PA0, PA1, PA2, PA3, PA4, PA5, PA6, PA7, PA8, PA9,\n        PA10, PA11, PA12, PA13, PA14, PA15\n    "
    );
    let short = vec!["PA9".to_string(), "PA10".to_string()];
    let mut out2 = String::from("x");
    cube_parse::text::push_wrapped(&mut out2, &short);
    assert_eq!(out2, "xPA9, PA10");
}

#[test]
fn pin_numbers_at_the_bounds() {
    assert_eq!(pin_location("PA4294967295"), Some(("PA".to_string(), u32::MAX)));
    assert_eq!(pin_location("PA4294967296"), None);
    assert_eq!(pin_location("PB0"), Some(("PB".to_string(), 0)));
    assert_eq!(decimal_string(0), "0");
    assert_eq!(decimal_string(u32::MAX), "4294967295");
    assert_eq!(decimal_string(1007), "1007");
}
