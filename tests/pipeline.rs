use cube_parse::features::generate_features;
use cube_parse::group::{collect, partition, Group, Tagged};
use cube_parse::ingest::{GpioSource, NoticeKind};
use cube_parse::model::{GPIOPin, IpGPIO, PinSignal, PossibleValue, SpecificParameter};
use cube_parse::render::generate_pin_mappings;
use cube_parse::tree::{AfTree, GpioEntry, Leaf};

fn s(x: &str) -> String {
    x.to_string()
}

fn signal(name: &str, af: &str) -> PinSignal {
    PinSignal {
        name: s(name),
        specific_parameter: SpecificParameter {
            name: s("GPIO_AF"),
            possible_value: PossibleValue { val: s(af) },
        },
    }
}

fn pin(port: &str, num: &str, signals: Vec<PinSignal>) -> GPIOPin {
    GPIOPin {
        port_name: s(port),
        name: format!("{}{}", port, num),
        specific_parameter: vec![SpecificParameter {
            name: s("GPIO_Pin"),
            possible_value: PossibleValue { val: format!("GPIO_PIN_{}", num) },
        }],
        pin_signal: Some(signals),
    }
}

fn leaf(mcus: &[&str]) -> Leaf {
    Leaf {
        stem: s("USART"),
        device: s("USART1"),
        af: s("AF7"),
        io: s("TX"),
        port: s("PA"),
        number: 9,
        group: s("STM32F030"),
        version: s("gpio_v1_0"),
        mcus: mcus.iter().map(|m| s(m)).collect(),
    }
}

#[test]
fn first_insert_wins() {
    let mut t = AfTree::new();
    assert!(!t.insert(leaf(&["stm32f030"])));
    assert!(t.insert(leaf(&["stm32f031"])));
    assert_eq!(t.leaf_list().len(), 1);
    assert_eq!(t.leaf_list()[0].mcus, vec![s("stm32f030")]);
    // the same value again is no conflict
    assert!(!t.insert(leaf(&["stm32f030"])));
    assert_eq!(t.leaf_list().len(), 1);
}

#[test]
fn register_gpio_conflict() {
    let mut t = AfTree::new();
    let e = |m: &str| GpioEntry { group: s("STM32F030"), version: s("gpio_v1_0"), mcus: vec![s(m)] };
    assert!(!t.register_gpio(e("stm32f030")));
    assert!(t.register_gpio(e("stm32f031")));
    assert_eq!(t.gpio_list().len(), 1);
    assert_eq!(t.gpio_list()[0].mcus, vec![s("stm32f030")]);
}

fn tagged(v: &str, mcus: &[&str]) -> Tagged {
    Tagged { value: s(v), mcus: mcus.iter().map(|m| s(m)).collect() }
}

fn summary(gs: &[Group]) -> Vec<(Vec<String>, Vec<String>)> {
    let mut out: Vec<(Vec<String>, Vec<String>)> = gs
        .iter()
        .map(|g| {
            let mut m = g.mcus.clone();
            m.sort();
            let mut v = g.values.clone();
            v.sort();
            (m, v)
        })
        .collect();
    out.sort();
    out
}

#[test]
fn grouping_by_support() {
    let items = vec![
        tagged("USART1", &["a"]),
        tagged("USART2", &["a", "b"]),
        tagged("USART1", &["b"]),
        tagged("SPI1", &["a"]),
    ];
    let c = collect(&items);
    assert_eq!(c.len(), 3);
    let g = partition(&c);
    assert_eq!(
        summary(&g),
        vec![
            (vec![s("a")], vec![s("SPI1")]),
            (vec![s("a"), s("b")], vec![s("USART1"), s("USART2")]),
        ]
    );
}

#[test]
fn grouping_twice_keeps_groups() {
    let items = vec![
        tagged("AF1", &["x"]),
        tagged("AF2", &["x", "y"]),
        tagged("AF3", &["y"]),
        tagged("AF3", &["x"]),
        tagged("AF4", &["y"]),
    ];
    let first = partition(&collect(&items));
    let again: Vec<Tagged> = first
        .iter()
        .flat_map(|g| g.values.iter().map(move |v| Tagged { value: v.clone(), mcus: g.mcus.clone() }))
        .collect();
    let second = partition(&collect(&again));
    assert_eq!(summary(&first), summary(&second));
}

fn usart_sources() -> Vec<GpioSource> {
    vec![GpioSource {
        gpio: s("STM32F030_gpio_v1_0"),
        mcus: vec![s("STM32F030C6Tx"), s("STM32F031C6Tx")],
        ip: IpGPIO { gpio_pin: vec![pin("PA", "9", vec![signal("USART1_TX", "GPIO_AF7_USART1")])] },
    }]
}

#[test]
fn end_to_end_two_mcus() {
    let (t, notices) = AfTree::build_from(usart_sources());
    assert!(notices.is_empty());
    let m = generate_pin_mappings(&t, &None, true).unwrap();
    let guard = "\n#[cfg(any(\n    feature = \"stm32f030\",\n    feature = \"stm32f031\"\n))]\n";
    assert_eq!(m.implementations, format!("{}pins! {{\n    PA9  => {{AF7 : PinTx<USART1>}}\n}}\n", guard));
    assert_eq!(m.implementations.matches("#[cfg(any(").count(), 1);
    assert_eq!(m.traits, format!("{}io_traits! {{\n    Dev => {{PinTx}}\n}}\n", guard));
    assert_eq!(
        m.uses,
        format!(
            "{g}dev_uses! {{\n    USART1\n}}\n{g}gpio_af_uses! {{\n    AF7\n}}\n{g}gpio_uses! {{\n    gpioa => {{PA9}}\n}}\n",
            g = guard
        )
    );

    let map = vec![(s("STM32F030_gpio_v1_0"), vec![s("STM32F030C6Tx"), s("STM32F031C6Tx")])];
    let f = generate_features(&map, &vec![], "STM32F0").unwrap();
    assert_eq!(
        f,
        "# Features based on the GPIO peripheral version\n# This determines the pin function mapping of the MCU\n\
         io-STM32F030 = []\n\n# MCUs\n\
         mcu-STM32F030C6Tx = [\"io-STM32F030\"]\n\
         mcu-STM32F031C6Tx = [\"io-STM32F030\"]\n"
    );
}

#[test]
fn rendering_twice_is_identical() {
    let a = generate_pin_mappings(&AfTree::build_from(usart_sources()).0, &None, true).unwrap();
    let b = generate_pin_mappings(&AfTree::build_from(usart_sources()).0, &None, true).unwrap();
    assert_eq!(a.uses, b.uses);
    assert_eq!(a.traits, b.traits);
    assert_eq!(a.implementations, b.implementations);
}

#[test]
fn groups_split_by_support() {
    let srcs = vec![
        GpioSource {
            gpio: s("STM32F030_gpio_v1_0"),
            mcus: vec![s("STM32F030C6Tx")],
            ip: IpGPIO {
                gpio_pin: vec![
                    pin("PA", "9", vec![signal("USART1_TX", "GPIO_AF1_USART1")]),
                    pin("PA", "10", vec![signal("USART1_RX", "GPIO_AF1_USART1")]),
                ],
            },
        },
        GpioSource {
            gpio: s("STM32F070_gpio_v1_0"),
            mcus: vec![s("STM32F070C6Tx")],
            ip: IpGPIO { gpio_pin: vec![pin("PA", "2", vec![signal("USART2_TX", "GPIO_AF1_USART2")])] },
        },
    ];
    let (t, _) = AfTree::build_from(srcs);
    let m = generate_pin_mappings(&t, &None, true).unwrap();
    let g0 = "\n#[cfg(any(\n    feature = \"stm32f030\"\n))]\n";
    let g1 = "\n#[cfg(any(\n    feature = \"stm32f070\"\n))]\n";
    assert_eq!(
        m.implementations,
        format!(
            "{}pins! {{\n    PA9  => {{AF1 : PinTx<USART1>}},\n    PA10 => {{AF1 : PinRx<USART1>}}\n}}\n{}pins! {{\n    PA2  => {{AF1 : PinTx<USART2>}}\n}}\n",
            g0, g1
        )
    );
    assert!(m.uses.contains("gpio_af_uses! {\n    AF1\n}"));
    assert!(m.uses.contains("gpioa => {PA9, PA10}"));
    let both = "\n#[cfg(any(\n    feature = \"stm32f030\",\n    feature = \"stm32f070\"\n))]\n";
    assert_eq!(m.traits, format!("{}io_traits! {{\n    Dev => {{PinRx}}\n}}\n{}io_traits! {{\n    Dev => {{PinTx}}\n}}\n", g0, both));
}

#[test]
fn notices_for_bad_input() {
    let srcs = vec![
        GpioSource {
            gpio: s("STM32F030_gpio_v1_0"),
            mcus: vec![s("STM32F030C6Tx"), s("bogus")],
            ip: IpGPIO {
                gpio_pin: vec![pin(
                    "PA",
                    "9",
                    vec![
                        signal("usart", "GPIO_AF1_USART1"),
                        signal("USART1_TX", "AF1"),
                        signal("JTCK", "GPIO_AF0_SYS"),
                        signal("EVENTOUT", "GPIO_AF0_EVENTOUT"),
                    ],
                )],
            },
        },
        GpioSource { gpio: s("nonsense"), mcus: vec![], ip: IpGPIO { gpio_pin: vec![] } },
        GpioSource {
            gpio: s("STM32F030_gpio_v1_0"),
            mcus: vec![s("STM32F031C6Tx")],
            ip: IpGPIO { gpio_pin: vec![pin("PA", "9", vec![signal("JTCK", "GPIO_AF0_SYS")])] },
        },
    ];
    let (t, notices) = AfTree::build_from(srcs);
    let kinds: Vec<NoticeKind> = notices.iter().map(|n| n.kind).collect();
    assert_eq!(
        kinds,
        vec![
            NoticeKind::UnparsedMcu,
            NoticeKind::UnparsedSignal,
            NoticeKind::UnparsedAf,
            NoticeKind::MissingRole,
            NoticeKind::Duplicate,
            NoticeKind::MissingRole,
            NoticeKind::Duplicate,
            NoticeKind::UnparsedGpio,
        ]
    );
    assert_eq!(notices[0].subject, "bogus");
    assert_eq!(notices[3].subject, "JTCK (JTCK)");
    assert_eq!(notices[4].subject, "STM32F030/gpio_v1_0");
    assert_eq!(notices[7].subject, "nonsense");
    // JTCK and EVENTOUT, each with the stem as its role
    assert_eq!(t.leaf_list().len(), 2);
    assert_eq!(t.leaf_list()[0].io, "JTCK");
    assert_eq!(t.leaf_list()[1].io, "EVENTOUT");
}

#[test]
fn multiple_versions_are_reported() {
    let mk = |gpio: &str, mcu: &str| GpioSource {
        gpio: s(gpio),
        mcus: vec![s(mcu)],
        ip: IpGPIO { gpio_pin: vec![pin("PA", "9", vec![signal("USART1_TX", "GPIO_AF7_USART1")])] },
    };
    let (t, notices) = AfTree::build_from(vec![mk("STM32F030_gpio_v1_0", "STM32F030C6Tx"), mk("STM32F030_gpio_v1_1", "STM32F031C6Tx")]);
    assert!(notices.is_empty());
    assert_eq!(t.leaf_list().len(), 2);
    let m = generate_pin_mappings(&t, &None, true).unwrap();
    assert_eq!(m.notices.len(), 1);
    assert_eq!(m.notices[0].kind, NoticeKind::MultipleVersions);
    assert_eq!(m.notices[0].subject, "STM32F030");
    assert!(m.implementations.contains("feature = \"stm32f030\""));
    assert!(!m.implementations.contains("stm32f031"));
}

#[test]
fn stem_selection() {
    let (t, _) = AfTree::build_from(usart_sources());
    assert_eq!(t.iter(&None).unwrap(), vec![s("USART")]);
    assert_eq!(t.iter(&Some(vec!["USART"])).unwrap(), vec![s("USART")]);
    assert_eq!(t.iter(&Some(vec!["TIM"])).unwrap_err(), "Invalid stem detected! (TIM)");
    assert_eq!(
        t.iter(&Some(vec!["TIM", "USART", "SPI"])).unwrap_err(),
        "Invalid stems detected! (TIM','SPI)"
    );
    assert!(generate_pin_mappings(&t, &Some(vec!["TIM"]), true).is_err());
    let empty = generate_pin_mappings(&t, &Some(vec![]), true).unwrap();
    assert_eq!(empty.uses, "");
}

#[test]
fn features_with_packages_and_families() {
    let map = vec![
        (s("STM32L051_gpio_v1_0"), vec![s("STM32L051C6Tx"), s("STM32L052C6Tx")]),
        (s("STM32L011_gpio_v1_0"), vec![s("STM32L011D3Px")]),
    ];
    let pkgs = vec![(s("STM32L051C6Tx"), s("LQFP48")), (s("STM32L011D3Px"), s("TSSOP14")), (s("STM32L052C6Tx"), s("LQFP48"))];
    let f = generate_features(&map, &pkgs, "STM32L0").unwrap();
    assert_eq!(
        f,
        "# Features based on the GPIO peripheral version\n# This determines the pin function mapping of the MCU\n\
         io-STM32L011 = []\nio-STM32L051 = []\n\n\
         # Physical packages\nlqfp48 = []\ntssop14 = []\n\n\
         # MCUs\n\
         mcu-STM32L011D3Px = [\"io-STM32L011\", \"stm32l0x1\", \"tssop14\"]\n\
         mcu-STM32L051C6Tx = [\"io-STM32L051\", \"stm32l0x1\", \"lqfp48\"]\n\
         mcu-STM32L052C6Tx = [\"io-STM32L051\", \"stm32l0x2\", \"lqfp48\"]\n"
    );
    let bad = vec![(s("STM32L051_gpio_v1_1"), vec![s("STM32L051C6Tx")])];
    assert_eq!(generate_features(&bad, &vec![], "STM32L0").unwrap_err(), "Could not parse version \"STM32L051_gpio_v1_1\"");
}

#[test]
fn query_listing() {
    let srcs = vec![GpioSource {
        gpio: s("STM32F030_gpio_v1_0"),
        mcus: vec![s("STM32F030C6Tx")],
        ip: IpGPIO {
            gpio_pin: vec![
                pin("PA", "10", vec![signal("USART1_TX", "GPIO_AF1_USART1")]),
                pin("PA", "9", vec![signal("USART1_TX", "GPIO_AF1_USART1"), signal("TIM1_CH2", "GPIO_AF2_TIM1")]),
            ],
        },
    }];
    let (t, _) = AfTree::build_from(srcs);
    let text = cube_parse::query::display_af_tree(&t, &None, false).unwrap().text;
    assert_eq!(
        text,
        "TIM\n  TIM1\n    AF2 : PinCh2     == CH2      =[ PA9 \nUSART\n  USART1\n    AF1 : PinTx      == TX       =[ PA9  | PA10\n"
    );
    assert!(cube_parse::query::display_af_tree(&t, &Some(vec!["SPI"]), false).is_err());
    let g = "        gpio-group: STM32F030\n        gpio-version: gpio_v1_0\n          stm32f030\n";
    let listing = cube_parse::query::display_af_tree(&t, &Some(vec!["USART", "TIM"]), true).unwrap();
    assert!(listing.notices.is_empty());
    let verbose = listing.text;
    assert_eq!(
        verbose,
        format!(
            "TIM\n  TIM1\n    AF2 : PinCh2 (CH2)\n      PA9\n{g}USART\n  USART1\n    AF1 : PinTx (TX)\n      PA9\n{g}      PA10\n{g}",
            g = g
        )
    );
}

#[test]
fn combined_interfaces() {
    let m = generate_pin_mappings(&AfTree::build_from(usart_sources()).0, &None, true).unwrap();
    assert_eq!(
        m.pins,
        "\n#[cfg(any(\n    feature = \"stm32f030\",\n    feature = \"stm32f031\"\n))] mod pins {\n    use crate::pin_defs::*;\n    /// Usart\n    pub trait Pins<Usart> {}\n    impl<Usart, TX> Pins<Usart> for (TX)\n    where\n        TX: PinTx<Usart>\n    {}\n\n}\n"
    );
}

#[test]
fn ungrouped_rendering_keeps_leaf_sets() {
    let srcs = vec![
        GpioSource {
            gpio: s("STM32F030_gpio_v1_0"),
            mcus: vec![s("STM32F030C6Tx")],
            ip: IpGPIO {
                gpio_pin: vec![
                    pin("PA", "9", vec![signal("USART1_TX", "GPIO_AF1_USART1")]),
                    pin("PA", "10", vec![signal("USART1_RX", "GPIO_AF1_USART1")]),
                ],
            },
        },
        GpioSource {
            gpio: s("STM32F070_gpio_v1_0"),
            mcus: vec![s("STM32F070C6Tx")],
            ip: IpGPIO { gpio_pin: vec![pin("PA", "2", vec![signal("USART2_TX", "GPIO_AF1_USART2")])] },
        },
    ];
    let (t, _) = AfTree::build_from(srcs);
    let m = generate_pin_mappings(&t, &None, false).unwrap();
    let g0 = "\n#[cfg(any(\n    feature = \"stm32f030\"\n))]\n";
    let g1 = "\n#[cfg(any(\n    feature = \"stm32f070\"\n))]\n";
    assert_eq!(
        m.traits,
        format!("{}io_traits! {{\n    Dev => {{PinRx, PinTx}}\n}}\n{}io_traits! {{\n    Dev => {{PinTx}}\n}}\n", g0, g1)
    );
    assert_eq!(
        m.uses,
        format!(
            "{g0}dev_uses! {{\n    USART1\n}}\n{g1}dev_uses! {{\n    USART2\n}}\n{g0}gpio_af_uses! {{\n    AF1\n}}\n{g1}gpio_af_uses! {{\n    AF1\n}}\n{g0}gpio_uses! {{\n    gpioa => {{PA9, PA10}}\n}}\n{g1}gpio_uses! {{\n    gpioa => {{PA2}}\n}}\n",
            g0 = g0,
            g1 = g1
        )
    );
}

#[test]
fn sources_are_added_in_identifier_order() {
    let mk = |gpio: &str, mcu: &str| GpioSource {
        gpio: s(gpio),
        mcus: vec![s(mcu)],
        ip: IpGPIO { gpio_pin: vec![pin("PA", "9", vec![signal("USART1_TX", "GPIO_AF7_USART1")])] },
    };
    let forward = AfTree::build_from(vec![mk("STM32F030_gpio_v1_0", "STM32F030C6Tx"), mk("STM32F030_gpio_v1_10", "STM32F031C6Tx"), mk("STM32F030_gpio_v1_2", "STM32F038C6Tx")]).0;
    let backward = AfTree::build_from(vec![mk("STM32F030_gpio_v1_2", "STM32F038C6Tx"), mk("STM32F030_gpio_v1_10", "STM32F031C6Tx"), mk("STM32F030_gpio_v1_0", "STM32F030C6Tx")]).0;
    let versions = |t: &AfTree| t.leaf_list().iter().map(|l| l.version.clone()).collect::<Vec<_>>();
    assert_eq!(versions(&forward), vec![s("gpio_v1_0"), s("gpio_v1_2"), s("gpio_v1_10")]);
    assert_eq!(versions(&backward), versions(&forward));
    let a = generate_pin_mappings(&forward, &None, true).unwrap();
    let b = generate_pin_mappings(&backward, &None, true).unwrap();
    assert_eq!(a.implementations, b.implementations);
    assert!(a.implementations.contains("feature = \"stm32f030\""));
}

#[test]
fn roles_with_one_interface_name_stay_apart() {
    let srcs = vec![GpioSource {
        gpio: s("STM32F030_gpio_v1_0"),
        mcus: vec![s("STM32F030C6Tx")],
        ip: IpGPIO {
            gpio_pin: vec![
                pin("PA", "9", vec![signal("USART1_TX", "GPIO_AF1_USART1")]),
                pin("PA", "10", vec![signal("USART1_Tx", "GPIO_AF1_USART1")]),
            ],
        },
    }];
    let (t, _) = AfTree::build_from(srcs);
    let m = generate_pin_mappings(&t, &None, true).unwrap();
    assert!(m.traits.contains("Dev => {PinTx, PinTx}"));
}

#[test]
fn nameless_pin_changes_nothing() {
    let mut t = AfTree::new();
    let p = GPIOPin {
        port_name: s("PA"),
        name: s("PA9"),
        specific_parameter: vec![],
        pin_signal: Some(vec![signal("USART1_TX", "GPIO_AF7_USART1")]),
    };
    let notices = p.update_af_tree("STM32F030", "gpio_v1_0", &vec![s("stm32f030")], &mut t);
    assert!(notices.is_empty());
    assert!(t.leaf_list().is_empty());
    let named = pin("PA", "9", vec![signal("USART1_TX", "GPIO_AF7_USART1")]);
    assert!(named.update_af_tree("STM32F030", "gpio_v1_0", &vec![s("stm32f030")], &mut t).is_empty());
    assert_eq!(t.leaf_list().len(), 1);
}

#[test]
fn packages_lower_case_beyond_ascii() {
    let map = vec![(s("STM32F030_gpio_v1_0"), vec![s("STM32F030C6Tx")])];
    let pkgs = vec![(s("STM32F030C6Tx"), s("ÄQFP48"))];
    let f = generate_features(&map, &pkgs, "STM32F0").unwrap();
    assert!(f.contains("# Physical packages\näqfp48 = []\n"));
    assert!(f.contains("mcu-STM32F030C6Tx = [\"io-STM32F030\", \"äqfp48\"]"));
}

#[test]
fn verbose_listing_reports_extra_revisions() {
    let mk = |gpio: &str, mcu: &str| GpioSource {
        gpio: s(gpio),
        mcus: vec![s(mcu)],
        ip: IpGPIO { gpio_pin: vec![pin("PA", "9", vec![signal("USART1_TX", "GPIO_AF7_USART1")])] },
    };
    let (t, _) = AfTree::build_from(vec![mk("STM32F030_gpio_v1_0", "STM32F030C6Tx"), mk("STM32F030_gpio_v1_1", "STM32F031C6Tx")]);
    let verbose = cube_parse::query::display_af_tree(&t, &None, true).unwrap();
    assert_eq!(verbose.notices.len(), 1);
    assert_eq!(verbose.notices[0].kind, NoticeKind::MultipleVersions);
    let plain = cube_parse::query::display_af_tree(&t, &None, false).unwrap();
    assert!(plain.notices.is_empty());
}
