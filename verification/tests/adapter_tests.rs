use tagtree::adapter::{adapt, events_from_bytes, tokens_from_bytes, RawToken};
use tagtree::builder::parse;
use tagtree::events::Event;
use tagtree::tree::Node;

fn expect_events(actual: &[Event], expected: &[(&str, bool)]) {
    assert_eq!(actual.len(), expected.len());
    for (got, (name, is_open)) in actual.iter().zip(expected.iter()) {
        match got {
            Event::Open(n) => {
                assert!(*is_open);
                assert_eq!(n, name);
            }
            Event::Close(n) => {
                assert!(!*is_open);
                assert_eq!(n, name);
            }
        }
    }
}

#[test]
fn adapt_keeps_element_tokens_and_drops_the_rest() {
    let tokens = vec![
        RawToken::Skipped,
        RawToken::Start("a".to_string()),
        RawToken::Skipped,
        RawToken::Start("b".to_string()),
        RawToken::End("b".to_string()),
        RawToken::End("a".to_string()),
        RawToken::Finished,
    ];

    let events = adapt(tokens);

    expect_events(&events, &[("a", true), ("b", true), ("b", false), ("a", false)]);
}

#[test]
fn adapt_truncates_at_a_failure() {
    let tokens = vec![
        RawToken::Start("a".to_string()),
        RawToken::Failed("broken".to_string()),
        RawToken::Start("b".to_string()),
    ];

    let events = adapt(tokens);

    expect_events(&events, &[("a", true)]);
}

#[test]
fn adapt_of_nothing_is_nothing() {
    let events = adapt(Vec::new());
    assert!(events.is_empty());
}

#[test]
fn tokenizer_reads_a_whole_document() {
    let data = b"<root><a/><b><c/></b><a/></root>".to_vec();

    let tokens = tokens_from_bytes(&data);
    // every token before the last one keeps the stream going
    for t in tokens.iter().take(tokens.len().saturating_sub(1)) {
        assert!(!matches!(t, RawToken::Finished | RawToken::Failed(_)));
    }

    let events = events_from_bytes(&data);
    expect_events(
        &events,
        &[
            ("root", true),
            ("a", true),
            ("a", false),
            ("b", true),
            ("c", true),
            ("c", false),
            ("b", false),
            ("a", true),
            ("a", false),
            ("root", false),
        ],
    );
}

#[test]
fn whole_pipeline_builds_the_deduplicated_shape() {
    let data = b"<root><a>text</a><b><c/></b><a><c/></a></root>".to_vec();

    let tree = parse(events_from_bytes(&data));

    let expected = Node {
        children: vec![(
            "root".to_string(),
            Node {
                children: vec![
                    (
                        "a".to_string(),
                        Node { children: vec![("c".to_string(), Node { children: vec![] })] },
                    ),
                    (
                        "b".to_string(),
                        Node { children: vec![("c".to_string(), Node { children: vec![] })] },
                    ),
                ],
            },
        )],
    };

    assert!(tree.eq(&expected));
}

#[test]
fn malformed_input_truncates_instead_of_failing() {
    let data = b"<root><a><<<".to_vec();

    let tree = parse(events_from_bytes(&data));

    let expected = Node {
        children: vec![(
            "root".to_string(),
            Node { children: vec![("a".to_string(), Node { children: vec![] })] },
        )],
    };

    assert!(tree.eq(&expected));
}
