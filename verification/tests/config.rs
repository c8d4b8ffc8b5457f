use htmlq::config::{get_config, join_tokens, Config, ConfigError, Matches, OutputFormat};

fn no_options() -> Matches {
    Matches {
        filename: None,
        output: None,
        pretty_print: false,
        text_only: false,
        ignore_whitespace: false,
        attribute: None,
        base: None,
        detect_base: false,
        remove_nodes: None,
        selector: None,
    }
}

#[test]
fn defaults_without_options() {
    let config = get_config(no_options()).unwrap();
    assert_eq!(config.input_path, "-");
    assert_eq!(config.output_path, "-");
    assert_eq!(config.selector, "html");
    assert_eq!(config.base, None);
    assert!(!config.detect_base);
    assert!(!config.ignore_whitespace);
    assert!(matches!(config.output_format, OutputFormat::Pass));
    assert_eq!(config.remove_nodes, None);
}

#[test]
fn selector_tokens_are_joined_with_single_spaces() {
    let mut m = no_options();
    m.selector = Some(vec!["div".to_string(), ">".to_string(), "p".to_string()]);
    assert_eq!(get_config(m).unwrap().selector, "div > p");
    let mut one = no_options();
    one.selector = Some(vec!["a".to_string()]);
    assert_eq!(get_config(one).unwrap().selector, "a");
}

#[test]
fn default_configuration() {
    let config = Config::default();
    assert_eq!(config.selector, "html");
    assert_eq!(config.input_path, "-");
    assert_eq!(config.output_path, "-");
    assert_eq!(config.base, None);
    assert!(!config.detect_base);
    assert!(!config.ignore_whitespace);
    assert!(matches!(config.output_format, OutputFormat::Pass));
    assert_eq!(config.remove_nodes, None);
}

#[test]
fn each_format_alone_is_taken() {
    let mut a = no_options();
    a.attribute = Some(vec!["href".to_string(), "id".to_string()]);
    match get_config(a).unwrap().output_format {
        OutputFormat::Attributes(names) => assert_eq!(names, vec!["href", "id"]),
        other => panic!("{:?}", other),
    }
    let mut p = no_options();
    p.pretty_print = true;
    assert!(matches!(get_config(p).unwrap().output_format, OutputFormat::PrettyPrint));
    let mut t = no_options();
    t.text_only = true;
    t.ignore_whitespace = true;
    let config = get_config(t).unwrap();
    assert!(matches!(config.output_format, OutputFormat::TextOnly));
    assert!(config.ignore_whitespace);
}

#[test]
fn two_formats_at_once_are_an_error() {
    for (attribute, pretty, text) in [
        (false, true, true),
        (true, true, false),
        (true, false, true),
        (true, true, true),
    ] {
        let mut m = no_options();
        m.attribute = if attribute { Some(vec!["href".to_string()]) } else { None };
        m.pretty_print = pretty;
        m.text_only = text;
        assert!(Config::from_args(m.clone()).is_none());
        assert_eq!(get_config(m).unwrap_err(), ConfigError::ConflictingFormats);
    }
    assert!(!ConfigError::ConflictingFormats.message().is_empty());
}

#[test]
fn options_are_carried_over() {
    let m = Matches {
        filename: Some("in.html".to_string()),
        output: Some("out.txt".to_string()),
        pretty_print: false,
        text_only: true,
        ignore_whitespace: true,
        attribute: None,
        base: Some("http://example.com/".to_string()),
        detect_base: true,
        remove_nodes: Some(vec!["script".to_string(), "style".to_string()]),
        selector: Some(Vec::new()),
    };
    let config = Config::from_args(m).unwrap();
    assert_eq!(config.input_path, "in.html");
    assert_eq!(config.output_path, "out.txt");
    assert_eq!(config.selector, "");
    assert_eq!(config.base.as_deref(), Some("http://example.com/"));
    assert!(config.detect_base);
    assert!(config.ignore_whitespace);
    assert_eq!(config.remove_nodes, Some(vec!["script".to_string(), "style".to_string()]));
}

#[test]
fn joining_tokens() {
    assert_eq!(join_tokens(&Vec::new()), "");
    assert_eq!(join_tokens(&vec!["a".to_string()]), "a");
    assert_eq!(join_tokens(&vec!["a".to_string(), "".to_string(), "b c".to_string()]), "a  b c");
}
