use libfim::config::config_error::OptionParseError;
use libfim::options as first;
use libfim::config::options::{
    LayoutType, LineNumbers, NumberParseError, OptionFactory, Options, TabSpaces, TabType, TabWidth,
    Verifiable,
};

fn fresh() -> Options {
    Options::default()
}

#[test]
fn options_default_values() {
    let o = fresh();
    assert_eq!(o.line_numbering, LineNumbers::Relative);
    assert_eq!(o.layout, LayoutType::Qwerty);
    assert_eq!(o.tab_type, TabType::Spaces);
    assert_eq!(o.tab_spaces, TabSpaces(4));
    assert_eq!(o.tab_width, TabWidth(4));
}

#[test]
fn set_option_line_numbering_with_crlf() {
    let mut o = fresh();
    o.line_numbering = LineNumbers::Off;
    assert_eq!(o.set_option("set line_numbering = Relative\r\n"), Ok(()));
    assert_eq!(o.line_numbering, LineNumbers::Relative);
}

#[test]
fn set_option_layout_without_spaces() {
    let mut o = fresh();
    assert_eq!(o.set_option("set layout=Dvorak"), Ok(()));
    assert_eq!(o.layout, LayoutType::Dvorak);
    assert_eq!(o.set_option("set layout = Workman"), Ok(()));
    assert_eq!(o.layout, LayoutType::Custom { name: "Workman".to_string() });
}

#[test]
fn set_option_numbers() {
    let mut o = fresh();
    assert_eq!(o.set_option("set tab_width = 8"), Ok(()));
    assert_eq!(o.tab_width, TabWidth(8));
    assert_eq!(o.set_option("set tab_spaces = 3"), Ok(()));
    assert_eq!(o.tab_spaces, TabSpaces(3));
    let positive = "number must be positive (i.e. not negative or zero)".to_string();
    assert_eq!(
        o.set_option("set tab_spaces = -3"),
        Err(OptionParseError::ValueParseError { msg: positive.clone() })
    );
    assert_eq!(o.tab_spaces, TabSpaces(3));
    assert_eq!(o.set_option("set tab_width = 0"), Err(OptionParseError::ValueParseError { msg: positive }));
    assert_eq!(i32::from(o.tab_width), 8);
    assert_eq!(o.set_option("set tab_type = Tab"), Ok(()));
    assert_eq!(o.tab_type, TabType::Tab);
}

#[test]
fn set_option_errors() {
    let mut o = fresh();
    assert_eq!(o.set_option("line_numbering = On"), Err(OptionParseError::NoSetPlusSpace));
    assert_eq!(o.set_option("set line_numbering On"), Err(OptionParseError::NoEquals));
    assert_eq!(o.set_option("set line_numbering =   "), Err(OptionParseError::NoValueAfterEquals));
    assert_eq!(
        o.set_option("set foo = 1"),
        Err(OptionParseError::NoMatchingOption { option: "foo".to_string() })
    );
    assert_eq!(
        o.set_option("set line_numbering = Sideways"),
        Err(OptionParseError::ValueParseError { msg: "could not parse Sideways into LineNumbers".to_string() })
    );
    assert_eq!(
        o.set_option("set tab_type = Both"),
        Err(OptionParseError::ValueParseError { msg: "could not parse Both into TabType".to_string() })
    );
    assert_eq!(
        o.set_option("set tab_width = abc"),
        Err(OptionParseError::ValueParseError { msg: "invalid digit found in string".to_string() })
    );
    assert_eq!(o.line_numbering, LineNumbers::Relative);
    assert_eq!(o.tab_width, TabWidth(4));
}

#[test]
fn enum_options_parse() {
    assert_eq!("On".parse::<LineNumbers>(), Ok(LineNumbers::On));
    assert_eq!("Off".parse::<LineNumbers>(), Ok(LineNumbers::Off));
    assert_eq!("on".parse::<LineNumbers>(), Err("could not parse on into LineNumbers".to_string()));
    assert_eq!("Spaces".parse::<TabType>(), Ok(TabType::Spaces));
    assert_eq!("Colemak".parse::<LayoutType>(), Ok(LayoutType::Colemak));
}

#[test]
fn number_options_parse() {
    assert_eq!(TabWidth::parse("+12").unwrap(), TabWidth(12));
    assert_eq!(TabSpaces::parse("-2147483648").unwrap(), TabSpaces(i32::MIN));
    assert!(TabSpaces::parse("2147483648").is_err());
    assert!(TabWidth::parse(" 1").is_err());
    assert!(TabWidth::parse("").is_err());
    assert_eq!(i32::from(TabWidth::from(7)), 7);
    assert_eq!(i32::from(TabSpaces::from(-1)), -1);
}

#[test]
fn verifiable_rejects_non_positive() {
    assert_eq!(TabWidth::verify(1), Ok(()));
    assert_eq!(
        TabWidth::verify(0),
        Err("number must be positive (i.e. not negative or zero)".to_string())
    );
    assert_eq!(
        TabSpaces::verify(-5),
        Err("number must be positive (i.e. not negative or zero)".to_string())
    );
}

#[test]
fn number_parse_error_from() {
    let e: NumberParseError = "too small".to_string().into();
    assert_eq!(e, NumberParseError::VerificationFailed("too small".to_string()));
    let pie = "x".parse::<i32>().unwrap_err();
    let e2: NumberParseError = pie.clone().into();
    assert_eq!(e2, NumberParseError::ParseIntError(pie));
}

#[test]
fn option_factory_builds_options() {
    let mut f = OptionFactory::new();
    f.set_line_numbering(LineNumbers::On).set_layout(LayoutType::Colemak).set_tab_width(TabWidth(2));
    f.set_tab_type(TabType::Tab).set_tab_spaces(TabSpaces(3));
    assert_eq!(f.peek().line_numbering, LineNumbers::On);
    assert_eq!(f.read_option("set layout = Dvorak"), Ok(()));
    assert_eq!(f.read_option("set nope = 1"), Err(OptionParseError::NoMatchingOption { option: "nope".to_string() }));
    let o = f.options();
    assert_eq!(o.layout, LayoutType::Dvorak);
    assert_eq!(o.tab_width, TabWidth(2));
    assert_eq!(o.tab_type, TabType::Tab);
    assert_eq!(o.tab_spaces, TabSpaces(3));
}

#[test]
fn first_option_factory() {
    let mut f = first::OptionFactory::new();
    assert_eq!(f.peek().line_numbering, first::LineNumbers::Relative);
    assert!(matches!(f.peek().layout, first::LayoutType::Qwerty));
    f.set_line_numbering(first::LineNumbers::Off).set_layout(first::LayoutType::Custom { name: "mine".to_string() });
    let o = f.options();
    assert_eq!(o.line_numbering, first::LineNumbers::Off);
    assert!(matches!(o.layout, first::LayoutType::Custom { ref name } if name == "mine"));
    let d = first::Options::default();
    assert_eq!(d.line_numbering, first::LineNumbers::Relative);
}
