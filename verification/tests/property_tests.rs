use plantuml_core::model::ElementType;
use plantuml_core::model::LayoutResult;
use plantuml_core::parse_sequence;
use plantuml_core::state_ast::State;
use plantuml_core::state_ast::StateDiagram;
use plantuml_core::state_ast::Transition;
use plantuml_core::SequenceLayoutEngine;
use plantuml_core::StateLayoutEngine;

fn render(source: &str) -> LayoutResult {
    let diagram = parse_sequence(source).expect("source should parse");
    SequenceLayoutEngine::new().layout(&diagram)
}

fn edge_points(result: &LayoutResult, id_prefix: &str) -> Vec<(i64, i64)> {
    for e in &result.elements {
        if e.id.starts_with(id_prefix) {
            if let ElementType::Edge { points, .. } = &e.element_type {
                return points.iter().map(|p| (p.x, p.y)).collect();
            }
        }
    }
    panic!("no edge with prefix {}", id_prefix);
}

#[test]
fn minimal_sequence_inventory() {
    let result = render("@startuml\nAlice -> Bob: Hello\n@enduml");
    let headers = result.elements.iter().filter(|e| e.id.starts_with("participant_")).count();
    let footers = result.elements.iter().filter(|e| e.id.starts_with("footer_")).count();
    let lifelines = result.elements.iter().filter(|e| e.id.starts_with("lifeline_")).count();
    assert_eq!(headers, 2);
    assert_eq!(footers, 2);
    assert_eq!(lifelines, 2);
    assert!(result.elements.len() >= 7);
    let mut found = false;
    for e in &result.elements {
        if e.id.starts_with("msg_") {
            if let ElementType::Edge { arrow_end, dashed, .. } = &e.element_type {
                assert!(*arrow_end);
                assert!(!*dashed);
                found = true;
            }
        }
    }
    assert!(found, "expected a message edge");
    assert!(result.bounds.width > 0 && result.bounds.height > 0);
}

#[test]
fn self_message_loop_shape() {
    let result = render("@startuml\nparticipant \"Processor\" as P\nP -> P: work\n@enduml");
    let headers = result.elements.iter().filter(|e| e.id.starts_with("participant_")).count();
    let footers = result.elements.iter().filter(|e| e.id.starts_with("footer_")).count();
    assert_eq!(headers, 1);
    assert_eq!(footers, 1);
    let pts = edge_points(&result, "msg_");
    assert_eq!(pts.len(), 4);
}

#[test]
fn alt_else_fragment_sections() {
    let result = render(
        "@startuml\nAlice -> Bob: Request\nalt Success\nBob --> Alice: OK\nelse Failure\nBob --> Alice: Error\nend\n@enduml",
    );
    let mut fragment_count = 0;
    for e in &result.elements {
        if let ElementType::Fragment { fragment_type, sections } = &e.element_type {
            fragment_count += 1;
            assert_eq!(fragment_type, "alt");
            assert_eq!(sections.len(), 2);
            assert_eq!(sections[0].condition, Some("Success".to_string()));
            assert_eq!(sections[1].condition, Some("Failure".to_string()));
            for s in sections {
                for c in &s.children {
                    assert!(e.bounds.y < c.bounds.y);
                    assert!(c.bounds.y + c.bounds.height < e.bounds.y + e.bounds.height);
                    assert!(e.bounds.x < c.bounds.x);
                    assert!(c.bounds.x + c.bounds.width < e.bounds.x + e.bounds.width);
                }
            }
        }
    }
    assert_eq!(fragment_count, 1);
}

#[test]
fn autonumber_stop_resume_properties() {
    let result = render(
        "@startuml\nautonumber\nAlice -> Bob: one\nautonumber stop\nAlice -> Bob: two\nautonumber resume\nAlice -> Bob: three\n@enduml",
    );
    let msgs: Vec<_> = result.elements.iter().filter(|e| e.id.starts_with("msg_")).collect();
    assert_eq!(msgs.len(), 3);
    assert_eq!(msgs[0].properties.get("autonumber").map(|s| s.as_str()), Some("1"));
    assert!(msgs[1].properties.get("autonumber").is_none());
    assert_eq!(msgs[2].properties.get("autonumber").map(|s| s.as_str()), Some("2"));
}

#[test]
fn autonumber_format_mask() {
    let result = render("@startuml\nautonumber 7 \"[00]\"\nAlice -> Bob: hi\n@enduml");
    let msgs: Vec<_> = result.elements.iter().filter(|e| e.id.starts_with("msg_")).collect();
    assert_eq!(msgs[0].properties.get("autonumber").map(|s| s.as_str()), Some("[07]"));
}

#[test]
fn activation_via_shortcut() {
    let result = render("@startuml\nAlice -> Bob++: req\nBob --> Alice: resp\n@enduml");
    let acts = result.elements.iter().filter(|e| e.id.starts_with("activation_")).count();
    assert_eq!(acts, 1);
    let first_msg = edge_points(&result, "msg_");
    let act = result
        .elements
        .iter()
        .find(|e| e.id.starts_with("activation_"))
        .expect("activation present");
    assert_eq!(act.bounds.y, first_msg[0].1, "activation starts at the first message's y");
    assert!(act.bounds.height >= 10);
}

#[test]
fn state_machine_with_composite() {
    let mut diagram = StateDiagram::new();
    let mut composite = State::composite("Active");
    composite.internal_transitions.push(Transition::new("[*]", "Idle"));
    composite.internal_transitions.push(Transition::new("Idle", "Running"));
    diagram.add_state(composite);
    diagram.add_transition(Transition::new("[*]", "Active"));
    diagram.add_transition(Transition::new("Active", "[*]"));
    let result = StateLayoutEngine::new().layout(&diagram);
    let composites = result
        .elements
        .iter()
        .filter(|e| matches!(&e.element_type, ElementType::CompositeState { .. }))
        .count();
    assert_eq!(composites, 1);
    let inner_states = result
        .elements
        .iter()
        .filter(|e| e.id.starts_with("Active_inner_state_"))
        .count();
    assert!(inner_states >= 2, "Idle and Running inside Active");
    let inner_initial = result
        .elements
        .iter()
        .filter(|e| e.id.starts_with("Active_inner_initial_"))
        .count();
    assert_eq!(inner_initial, 1);
    assert!(result.bounds.width > 0 && result.bounds.height > 0);
}

#[test]
fn layout_is_deterministic() {
    let source = "@startuml\nautonumber\nAlice -> Bob: x\nalt a\nBob --> Alice: y\nelse b\nBob -> Bob: z\nend\n@enduml";
    let r1 = render(source);
    let r2 = render(source);
    let ids1: Vec<_> = r1.elements.iter().map(|e| e.id.clone()).collect();
    let ids2: Vec<_> = r2.elements.iter().map(|e| e.id.clone()).collect();
    assert_eq!(ids1, ids2);
    assert_eq!(r1.bounds, r2.bounds);
}

#[test]
fn edges_have_distinct_consecutive_points() {
    let result = render(
        "@startuml\nAlice -> Bob: one\nBob -> Bob: self\nalt c\nAlice -> Bob: in\nend\n@enduml",
    );
    fn check(elements: &[plantuml_core::model::LayoutElement]) {
        for e in elements {
            if let ElementType::Edge { points, .. } = &e.element_type {
                assert!(points.len() >= 2);
                for w in points.windows(2) {
                    assert!(w[0] != w[1], "consecutive points must differ");
                }
            }
            if let ElementType::Fragment { sections, .. } = &e.element_type {
                for s in sections {
                    check(&s.children);
                }
            }
            assert!(e.bounds.width > 0 && e.bounds.height > 0);
        }
    }
    check(&result.elements);
}

#[test]
fn widening_is_monotone_in_label_length() {
    let short = render("@startuml\nAlice -> Bob: hi\n@enduml");
    let long = render(
        "@startuml\nAlice -> Bob: hi there this is a very long message label that overflows\n@enduml",
    );
    assert!(long.bounds.width >= short.bounds.width);
}

#[test]
fn alias_round_trip_single_header() {
    let result = render(
        "@startuml\nparticipant \"Display\" as A\nA -> A: first\nA -> A: second\n@enduml",
    );
    let headers: Vec<_> = result
        .elements
        .iter()
        .filter(|e| e.id.starts_with("participant_"))
        .collect();
    assert_eq!(headers.len(), 1);
    assert_eq!(headers[0].id, "participant_A");
    match &headers[0].element_type {
        ElementType::Rectangle { label, .. } => assert_eq!(label, "Display"),
        _ => panic!("expected a rectangle header"),
    }
}

#[test]
fn error_reports_line_numbers() {
    let err = parse_sequence("no diagram here").unwrap_err();
    assert_eq!(err.line(), 1);
    let err = parse_sequence("@startuml\nAlice -> Bob: hi").unwrap_err();
    assert_eq!(err.line(), 2);
    let err = parse_sequence("@startuml\n???\n@enduml").unwrap_err();
    assert_eq!(err.line(), 2);
    let err = parse_sequence("@startuml\nend\n@enduml").unwrap_err();
    assert_eq!(err.line(), 2);
    let err = parse_sequence("").unwrap_err();
    assert_eq!(err.line(), 1);
}

#[test]
fn comments_and_title_are_recognized() {
    let d = parse_sequence("@startuml\n' a comment line\ntitle My Diagram\nAlice -> Bob: hi\n@enduml")
        .unwrap();
    assert_eq!(d.metadata.title, Some("My Diagram".to_string()));
    assert_eq!(d.elements.len(), 1);
}

#[test]
fn named_colors_become_rgb() {
    let d = parse_sequence(
        "@startuml\nbox \"F\" #LightBlue\nparticipant A\nend box\nA -> A: x\n@enduml",
    )
    .unwrap();
    let c = d.boxes[0].color.expect("color parsed");
    assert_eq!((c.r, c.g, c.b), (173, 216, 230));
    let d2 = parse_sequence("@startuml\nactivate A\ndeactivate A\n@enduml");
    assert!(d2.is_ok());
    let d3 = parse_sequence("@startuml\nbox \"F\" #A0B1C2\nparticipant A\nend box\nA -> A: x\n@enduml")
        .unwrap();
    let c3 = d3.boxes[0].color.expect("hex color parsed");
    assert_eq!((c3.r, c3.g, c3.b), (0xA0, 0xB1, 0xC2));
}

#[test]
fn dividers_and_delays_take_space() {
    let result = render("@startuml\nAlice -> Bob: a\n== Phase ==\n...later...\nBob --> Alice: b\n@enduml");
    let has_div = result.elements.iter().any(|e| e.id.starts_with("divider_"));
    let has_delay = result.elements.iter().any(|e| e.id.starts_with("delay_"));
    assert!(has_div && has_delay);
}

#[test]
fn boxes_render_under_everything() {
    let result = render(
        "@startuml\nbox \"Grp\" #LightGreen\nparticipant A\nparticipant B\nend box\nA -> B: m\n@enduml",
    );
    assert!(result.elements[0].id.starts_with("box_"), "boxes come first");
    match &result.elements[0].element_type {
        ElementType::ParticipantBox => {}
        _ => panic!("expected a participant box"),
    }
    assert_eq!(
        result.elements[0].properties.get("color").map(|s| s.as_str()),
        Some("#90EE90")
    );
}

#[test]
fn return_pops_innermost_call() {
    let result = render("@startuml\nAlice -> Bob++: request\nreturn done\n@enduml");
    let ret = result
        .elements
        .iter()
        .find(|e| e.id.starts_with("return_"))
        .expect("return edge present");
    match &ret.element_type {
        ElementType::Edge { dashed, label, .. } => {
            assert!(*dashed);
            assert_eq!(label.as_deref(), Some("done"));
        }
        _ => panic!("expected an edge"),
    }
    let result2 = render("@startuml\nAlice -> Bob: plain\nreturn ignored\n@enduml");
    assert!(result2.elements.iter().all(|e| !e.id.starts_with("return_")));
}

#[test]
fn transition_labels_compose() {
    let t = Transition::new("A", "B").with_event("go").with_guard("ok").with_action("run");
    assert_eq!(t.label(), "go [ok] / run");
}

#[test]
fn lifelines_span_header_to_footer() {
    let result = render("@startuml\nAlice -> Bob: m\n@enduml");
    let header = result
        .elements
        .iter()
        .find(|e| e.id == "participant_Alice")
        .expect("header");
    let footer = result.elements.iter().find(|e| e.id == "footer_Alice").expect("footer");
    let pts = edge_points(&result, "lifeline_Alice");
    assert_eq!(pts.len(), 2);
    assert_eq!(pts[0].1, header.bounds.y + header.bounds.height);
    assert_eq!(pts[1].1, footer.bounds.y);
}
