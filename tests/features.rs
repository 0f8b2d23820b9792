use cube_parse::ident::gpio_version_to_feature;

#[test]
fn test_gpio_version_to_feature() {
    // Success
    assert_eq!(
        gpio_version_to_feature("STM32L152x8_gpio_v1_0").unwrap(),
        "io-STM32L152x8"
    );
    assert_eq!(
        gpio_version_to_feature("STM32F333_gpio_v1_0").unwrap(),
        "io-STM32F333"
    );

    // Error parsing, unsupported version
    assert!(gpio_version_to_feature("STM32F333_gpio_v1_1").is_err());

    // Error parsing, wrong pattern
    assert!(gpio_version_to_feature("STM32F333_qqio_v1_0").is_err());

    // Error parsing, too many underscores
    assert!(gpio_version_to_feature("STM32_STM32F333_gpio_v1_0").is_err());
}

#[test]
fn version_error_quotes_as_debug_does() {
    assert_eq!(
        gpio_version_to_feature("\"").unwrap_err(),
        "Could not parse version \"\\\"\""
    );
    assert_eq!(
        gpio_version_to_feature("a\\b").unwrap_err(),
        "Could not parse version \"a\\\\b\""
    );
}
