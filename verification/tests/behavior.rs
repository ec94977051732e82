use gtk_ui_builder::ast::{Entry, Object, Property, PropertyValue, Requirement, RhaiEvent, Tree};
use gtk_ui_builder::parse_error::ParseError;
use gtk_ui_builder::parser::Parser;
use gtk_ui_builder::text::usize_string;
use gtk_ui_builder::token::Token;
use gtk_ui_builder::tokenize_error::TokenizeError;
use gtk_ui_builder::tokenizer::Tokenizer;

#[test]
fn requirement_normalizes_known_library_names() {
    for spelling in ["gtk", "Gtk", "GTK"] {
        assert_eq!(
            Requirement::new(String::from(spelling), String::from("4.0")),
            Requirement::Gtk(String::from("4.0"))
        );
    }
    for spelling in ["adw", "Adw", "ADW", "libadwaita", "Libadwaita"] {
        assert_eq!(
            Requirement::new(String::from(spelling), String::from("1.0")),
            Requirement::Libadwaita(String::from("1.0"))
        );
    }
    assert_eq!(
        Requirement::new(String::from("webkit"), String::from("6.0")),
        Requirement::Other(String::from("webkit"), String::from("6.0"))
    );
    // case variants that are not special-cased pass through verbatim
    assert_eq!(
        Requirement::new(String::from("gTk"), String::from("4.0")),
        Requirement::Other(String::from("gTk"), String::from("4.0"))
    );
}

#[test]
fn requirement_xml_forms() {
    assert_eq!(
        Requirement::Gtk(String::from("4.0")).get_xml(),
        Some(String::from("<requires lib=\"gtk\" version=\"4.0\"/>"))
    );
    assert_eq!(Requirement::Libadwaita(String::from("1.0")).get_xml(), None);
    assert_eq!(
        Requirement::Other(String::from("webkit"), String::from("6.0")).get_xml(),
        Some(String::from("<requires lib=\"webkit\" version=\"6.0\"/>"))
    );
}

#[test]
fn parse_then_serialize_is_deterministic() {
    let source = "using Gtk 4.0 Adw.ApplicationWindow window { default-width: 600; }";
    let first = Parser::parse(source).unwrap().get_xml();
    let second = Parser::parse(source).unwrap().get_xml();
    assert_eq!(first, second);
}

#[test]
fn nested_object_serializes_inside_property_element() {
    let tree = Parser::parse("Gtk.Box { content: Gtk.Label {}; }").unwrap();
    let xml = tree.get_xml();
    assert_eq!(
        xml,
        "<?xml version=\"1.0\" encoding=\"UTF-8\"?><interface><object class=\"GtkBox\"><property name=\"content\"><object class=\"GtkLabel\"></object></property></object></interface>"
    );
    // the nested object stands inside the property element, not in a wrapper
    assert!(!xml.contains("<child>"));
}

fn assert_tokens_within(tokens: &[Token], lo: usize, hi: usize) {
    let mut previous_end: Option<usize> = None;
    for token in tokens {
        let (begin, end) = (token.get_begin(), token.get_end());
        assert!(lo <= begin && begin <= end && end < hi);
        if let Some(prev) = previous_end {
            assert!(prev < begin);
        }
        previous_end = Some(end);
        match token {
            Token::Parentheses { tokens, .. }
            | Token::SquareBrackets { tokens, .. }
            | Token::CurlyBrackets { tokens, .. } => {
                assert_tokens_within(tokens, begin + 1, end);
            },
            _ => {},
        }
    }
}

#[test]
fn token_offsets_stay_in_bounds_and_ordered() {
    let source = "use Gtk 4.0 ( a \"text\" [ b { c } ] ) trailing";
    let tokens = Tokenizer::parse(source).unwrap();
    assert_tokens_within(&tokens, 0, source.chars().count());
}

#[test]
fn plain_text_always_tokenizes() {
    for source in ["", "   ", "abc", "a.b_c 0.9\n\tZ", "one two three"] {
        assert!(Tokenizer::parse(source).is_ok());
    }
}

#[test]
fn arrow_after_whitespace_is_a_character_error() {
    // a bareword may not begin with `=`, so an event binding written with a
    // space before the arrow never reaches the parser's event branch
    match Parser::parse("clicked => { print(42) }") {
        Err(ParseError::TokenizeError(TokenizeError::IncorrectChar { offset, .. })) => {
            assert_eq!(offset, 8);
        },
        _ => panic!("expected a character error"),
    }
    // the same holds with event bindings enabled
    match Parser::parse_with_events("clicked => { print(42) }", 0) {
        Err(ParseError::TokenizeError(TokenizeError::IncorrectChar { .. })) => {},
        _ => panic!("expected a character error"),
    }
}

#[test]
fn event_entries_built_by_hand() {
    let mut tree = Tree::new();
    let entry = RhaiEvent::entry(String::from("clicked"), String::from("say()"), 7);
    tree.add_child(entry);
    let events = tree.root.get_rhai_events();
    assert_eq!(events.len(), 1);
    assert_eq!(events[0].name, "clicked");
    assert_eq!(events[0].code, "say()");
    assert_eq!(events[0].event_id, 7);
    assert_eq!(events[0].get_signal_name(), "rhai_signal_7");
    // events render nothing in the XML output
    assert_eq!(events[0].get_xml(), "");
    assert_eq!(events[0].dbg(), "clicked => RhaiEvent(7)");
    assert_eq!(
        tree.get_xml(),
        "<?xml version=\"1.0\" encoding=\"UTF-8\"?><interface></interface>"
    );
}

#[test]
fn event_entry_inside_an_object_is_not_wrapped() {
    let mut window = Object {
        class: String::from("Gtk.Window"),
        name: None,
        children: Vec::new(),
    };
    window.add_child(RhaiEvent::entry(String::from("clicked"), String::from("say()"), 1));
    let mut tree = Tree::new();
    tree.add_child(Entry::Object(window));
    assert_eq!(
        tree.get_xml(),
        "<?xml version=\"1.0\" encoding=\"UTF-8\"?><interface><object class=\"GtkWindow\"></object></interface>"
    );
}

#[test]
fn named_objects_in_document_order() {
    let tree = Parser::parse(
        "Gtk.Button first {} Gtk.Box second { Gtk.Label third {} content: Gtk.Grid fourth {}; }",
    )
    .unwrap();
    let named = tree.root.get_named_objects();
    let names: Vec<&str> = named.iter().map(|(name, _)| name.as_str()).collect();
    assert_eq!(names, vec!["first", "second", "third", "fourth"]);
    assert_eq!(named[3].1.class, "Gtk.Grid");
}

#[test]
fn filter_visits_objects_in_preorder() {
    let tree = Parser::parse("Gtk.Box a { Gtk.Label b {} content: Gtk.Grid c {}; }").unwrap();
    let classes = tree.root.filter(&|entry: &Entry| {
        match entry {
            Entry::Object(obj) => Some(obj.class.clone()),
            _ => None,
        }
    });
    assert_eq!(classes, vec!["Gtk.Box", "Gtk.Label", "Gtk.Grid"]);
}

#[test]
fn debug_rendering() {
    let tree = Parser::parse("Gtk.Box {}").unwrap();
    assert_eq!(
        tree.root.dbg(),
        "Root { requirements: [], children: [Object { class: Gtk.Box, name: None, children: [] }, ] }"
    );
    let prop = Property {
        name: String::from("label"),
        value: PropertyValue::Text(String::from("hey")),
    };
    assert_eq!(prop.dbg(), "Property { name: label, value: hey }");
    assert_eq!(Requirement::Gtk(String::from("4.0")).dbg(), "Gtk(4.0)");
}

#[test]
fn tokenize_error_details() {
    match Tokenizer::parse(";hi") {
        Err(TokenizeError::IncorrectChar { message, wrong_string, offset }) => {
            assert_eq!(message, "Incorrect character (;) found at offset 0");
            assert_eq!(wrong_string, "");
            assert_eq!(offset, 0);
        },
        _ => panic!("expected a character error"),
    }
    match Tokenizer::parse("Hi \"Example string") {
        Err(TokenizeError::IncorrectString { message, begin, end, wrong_string }) => {
            assert_eq!(message, "Incorrect string format found from offset 3 to 18");
            assert_eq!(begin, 3);
            assert_eq!(end, 18);
            assert_eq!(wrong_string, "Example string");
        },
        _ => panic!("expected a string error"),
    }
    match Tokenizer::parse("[)") {
        Err(e @ TokenizeError::IncorrectBrackets { .. }) => {
            assert_eq!(e.get_message(), "Incorrect brackets format found from offset 0 to 2");
        },
        _ => panic!("expected a brackets error"),
    }
}

#[test]
fn error_offsets_are_rebased_to_the_original_input() {
    // the failing property sits inside a nested object body
    match Parser::parse("A { b: }") {
        Err(ParseError::IncorrectPropertyDefinition { offset, .. }) => {
            assert_eq!(offset, 4);
        },
        _ => panic!("expected a property error"),
    }
    // offset() itself re-bases every variant
    let shifted = ParseError::IncorrectSyntax { message: String::from("m"), offset: 3 }.offset(10);
    assert_eq!(shifted, ParseError::IncorrectSyntax { message: String::from("m"), offset: 13 });
}

#[test]
fn standalone_value_is_a_syntax_error() {
    match Parser::parse("\"text\"") {
        Err(ParseError::IncorrectSyntax { message, offset }) => {
            assert_eq!(message, "Incorrect syntax at offset 0");
            assert_eq!(offset, 0);
        },
        _ => panic!("expected a syntax error"),
    }
    match Parser::parse("[]") {
        Err(ParseError::IncorrectSyntax { .. }) => {},
        _ => panic!("expected a syntax error"),
    }
}

#[test]
fn token_accessors() {
    let tokens = Tokenizer::parse("alpha \"beta\" (gamma)").unwrap();
    assert!(tokens[0].is_other());
    assert!(tokens[0].is_other_value("alpha"));
    assert!(!tokens[0].is_other_value("beta"));
    assert!(!tokens[1].is_other());
    assert_eq!(tokens[1].get_value(), Some(String::from("beta")));
    assert_eq!(tokens[2].get_value(), None);
    assert_eq!(tokens[2].get_begin(), 13);
    assert_eq!(tokens[2].get_end(), 19);
}

#[test]
fn tree_built_by_hand_serializes() {
    let mut tree = Tree::new();
    tree.require(Requirement::new(String::from("Gtk"), String::from("4.0")));
    let mut window = Object {
        class: String::from("Gtk.Window"),
        name: Some(String::from("main")),
        children: Vec::new(),
    };
    window.add_child(Property::entry(
        String::from("title"),
        PropertyValue::Text(String::from("Demo")),
    ));
    tree.add_child(Entry::Object(window));
    assert_eq!(
        tree.get_xml(),
        "<?xml version=\"1.0\" encoding=\"UTF-8\"?><interface><requires lib=\"gtk\" version=\"4.0\"/><object class=\"GtkWindow\" id=\"main\"><property name=\"title\">Demo</property></object></interface>"
    );
}

#[test]
fn empty_document_serializes_to_an_empty_interface() {
    let tree = Parser::parse("").unwrap();
    assert!(tree.root.requirements.is_empty());
    assert!(tree.root.children.is_empty());
    assert_eq!(tree.get_xml(), "<?xml version=\"1.0\" encoding=\"UTF-8\"?><interface></interface>");
}

#[test]
fn decimal_rendering() {
    assert_eq!(usize_string(0), "0");
    assert_eq!(usize_string(7), "7");
    assert_eq!(usize_string(10), "10");
    assert_eq!(usize_string(90210), "90210");
}

#[test]
fn multi_token_bareword_property_keeps_first_value() {
    // a bareword value followed by a separate terminator token is taken
    // verbatim, and the statement consumes everything through the terminator
    let tree = Parser::parse("key: alpha beta;").unwrap();
    assert_eq!(
        tree.get_xml(),
        "<?xml version=\"1.0\" encoding=\"UTF-8\"?><interface><property name=\"key\">alpha</property></interface>"
    );
}

#[test]
fn property_value_of_brackets_alone_is_rejected() {
    match Parser::parse("key: [] x;") {
        Err(ParseError::IncorrectPropertyDefinition { .. }) => {},
        _ => panic!("expected a property error"),
    }
}
