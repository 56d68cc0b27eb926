use orgize::arena::{Arena, NodeId};
use orgize::element::Element;
use orgize::export::{DefaultHtmlHandler, DefaultOrgHandler, HtmlHandler, OrgHandler, RenderError};
use orgize::org::{Event, Org, ParseConfig};

const DOC: &str = "\n\nCLOCK: [2003-09-16 Tue 09:39]\n{{{author}}}\nplain words here\n";

#[test]
fn parse_builds_flat_tree() {
    let org = Org::parse(DOC);
    let events = org.iter();
    // Root start, then one Start/End pair per element, then root end.
    assert!(matches!(events[0], Event::Start(Element::Document { pre_blank: 2 })));
    assert!(matches!(events[events.len() - 1], Event::End(Element::Document { .. })));
    let clock = &events[1];
    match clock {
        Event::Start(Element::Clock(c)) => assert!(c.is_running()),
        other => panic!("expected the clock first, got {:?}", other),
    }
    match &events[3] {
        Event::Start(Element::Macros(m)) => {
            assert_eq!(m.name, b"author".to_vec());
            assert_eq!(m.arguments, None);
        }
        other => panic!("expected the macro call second, got {:?}", other),
    }
    // The macro line's trailing newline and the unknown line become text.
    match &events[5] {
        Event::Start(Element::Text { value }) => assert_eq!(value, &b"\n".to_vec()),
        other => panic!("expected a newline text node, got {:?}", other),
    }
    match &events[7] {
        Event::Start(Element::Text { value }) => {
            assert_eq!(value, &b"plain words here\n".to_vec())
        }
        other => panic!("expected the fallback text node, got {:?}", other),
    }
    // 1 root + 4 leaves, each visited once as Start and once as End.
    assert_eq!(events.len(), 10);
}

#[test]
fn traversal_balanced_pairs() {
    let org = Org::parse(DOC);
    let events = org.iter();
    let mut depth: i64 = 0;
    for (i, ev) in events.iter().enumerate() {
        match ev {
            Event::Start(_) => depth += 1,
            Event::End(_) => depth -= 1,
        }
        if i + 1 < events.len() {
            assert!(depth > 0, "nesting must stay open inside the sequence");
        }
    }
    assert_eq!(depth, 0, "every Start needs its End");
}

#[test]
fn parse_is_deterministic() {
    let once = Org::parse(DOC).iter();
    let twice = Org::parse_with_config(DOC, &ParseConfig::default()).iter();
    assert_eq!(once, twice);
}

#[test]
fn empty_and_blank_documents() {
    let org = Org::parse("");
    let events = org.iter();
    assert_eq!(events.len(), 2);
    assert!(matches!(events[0], Event::Start(Element::Document { pre_blank: 0 })));

    let org = Org::parse("  \n\t\n");
    let events = org.iter();
    assert_eq!(events.len(), 2);
    assert!(matches!(events[0], Event::Start(Element::Document { pre_blank: 2 })));
}

#[test]
fn new_is_lone_root() {
    let org = Org::new();
    let events = org.iter();
    assert_eq!(events.len(), 2);
    assert!(matches!(events[0], Event::Start(Element::Document { pre_blank: 0 })));
    let dflt = Org::default();
    assert_eq!(events, dflt.iter());
}

#[test]
fn org_get_set() {
    let mut org = Org::parse("{{{author}}}");
    let root = org.root();
    assert!(matches!(org.get(root), Element::Document { .. }));
    org.set(root, Element::Document { pre_blank: 7 });
    assert!(matches!(org.get(root), Element::Document { pre_blank: 7 }));
    let events = org.iter();
    assert!(matches!(events[0], Event::Start(Element::Document { pre_blank: 7 })));
}

#[test]
fn arena_handles_and_traversal() {
    let mut arena = Arena::new();
    assert_eq!(arena.len(), 0);
    let root = arena.new_node(Element::Document { pre_blank: 0 });
    let a = arena.append_child(root, Element::Text { value: b"a".to_vec() });
    let b = arena.append_child(root, Element::Text { value: b"b".to_vec() });
    let under_a = arena.append_child(a, Element::Text { value: b"c".to_vec() });
    assert_eq!(arena.len(), 4);
    assert!(arena.contains(root) && arena.contains(under_a));
    assert!(!arena.contains(NodeId { idx: 9 }));
    assert_eq!(arena.get(b), &Element::Text { value: b"b".to_vec() });
    arena.set(b, Element::Text { value: b"B".to_vec() });
    assert_eq!(arena.get(b), &Element::Text { value: b"B".to_vec() });
    // Depth-first: root, a, c under a, then b.
    let events = arena.traverse(root);
    assert_eq!(
        events,
        vec![
            (true, 0),
            (true, 1),
            (true, 3),
            (false, 3),
            (false, 1),
            (true, 2),
            (false, 2),
            (false, 0),
        ]
    );
}

#[test]
fn html_rendering() {
    let org = Org::parse("plain\n");
    let html = org.html();
    assert_eq!(html, b"<main>plain\n</main>".to_vec());
    let round = org.org();
    assert_eq!(round, b"plain\n".to_vec());
}

#[test]
fn html_with_default_handler() {
    let org = Org::parse("{{{author}}}");
    let mut handler = DefaultHtmlHandler {};
    let html = org.html_with_handler(&mut handler).unwrap();
    assert_eq!(
        html,
        b"<main><span class=\"macro\"></span></main>".to_vec()
    );
    // The plain renderers are the handler loops run with the defaults.
    assert_eq!(html, org.html());
    let mut org_handler = DefaultOrgHandler {};
    assert_eq!(org.org_with_handler(&mut org_handler).unwrap(), org.org());
}

struct FailingHandler {}

impl HtmlHandler<u32> for FailingHandler {
    fn start(&mut self, element: &Element) -> Result<Vec<u8>, u32> {
        match element {
            Element::Document { .. } => Ok(b"doc".to_vec()),
            _ => Err(17),
        }
    }

    fn end(&mut self, _element: &Element) -> Result<Vec<u8>, u32> {
        Ok(Vec::new())
    }
}

#[test]
fn handler_error_aborts_render() {
    let org = Org::parse("plain\n");
    let mut handler = FailingHandler {};
    assert_eq!(org.html_with_handler(&mut handler), Err(17));
    // The tree stays valid and re-renderable with another handler.
    let mut ok = DefaultHtmlHandler {};
    assert!(org.html_with_handler(&mut ok).is_ok());
}

#[test]
fn render_error_is_plain_data() {
    assert_eq!(RenderError {}, RenderError {});
}
