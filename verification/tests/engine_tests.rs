use plantuml_core::ast::Activation;
use plantuml_core::ast::ActivationType;
use plantuml_core::ast::Fragment;
use plantuml_core::ast::FragmentSection;
use plantuml_core::ast::FragmentType;
use plantuml_core::ast::Message;
use plantuml_core::ast::Participant;
use plantuml_core::ast::SequenceDiagram;
use plantuml_core::ast::SequenceElement;
use plantuml_core::model::ElementType;
use plantuml_core::state_ast::state_diagram_ok;
use plantuml_core::state_ast::State;
use plantuml_core::state_ast::StateDiagram;
use plantuml_core::state_ast::Transition;
use plantuml_core::SequenceLayoutEngine;
use plantuml_core::StateLayoutEngine;

#[test]
fn test_empty_diagram() {
    let engine = SequenceLayoutEngine::new();
    let diagram = SequenceDiagram::new();
    let result = engine.layout(&diagram);
    assert!(result.elements.is_empty() || result.elements.len() <= 2);
}

#[test]
fn test_simple_diagram() {
    let engine = SequenceLayoutEngine::new();
    let mut diagram = SequenceDiagram::new();
    diagram.add_participant(Participant::as_participant("Alice"));
    diagram.add_participant(Participant::as_participant("Bob"));
    diagram.add_element(SequenceElement::Message(Message::new("Alice", "Bob", "Hello")));
    let result = engine.layout(&diagram);
    assert!(result.elements.len() >= 3);
}

#[test]
fn test_self_message() {
    let engine = SequenceLayoutEngine::new();
    let mut diagram = SequenceDiagram::new();
    diagram.add_participant(Participant::as_participant("Alice"));
    diagram.add_element(SequenceElement::Message(Message::new("Alice", "Alice", "Think")));
    let result = engine.layout(&diagram);
    let has_message = result
        .elements
        .iter()
        .any(|e| matches!(&e.element_type, ElementType::Edge { points, .. } if points.len() > 2));
    assert!(has_message, "Self-message should have more than 2 points");
}

#[test]
fn test_fragment_layout() {
    let engine = SequenceLayoutEngine::new();
    let mut diagram = SequenceDiagram::new();
    diagram.add_participant(Participant::as_participant("Alice"));
    diagram.add_participant(Participant::as_participant("Bob"));
    let fragment = Fragment {
        fragment_type: FragmentType::Alt,
        condition: Some("success".to_string()),
        sections: vec![FragmentSection {
            condition: None,
            elements: vec![SequenceElement::Message(Message::new("Alice", "Bob", "OK"))],
        }],
    };
    diagram.add_element(SequenceElement::Fragment(fragment));
    let result = engine.layout(&diagram);
    let has_fragment = result
        .elements
        .iter()
        .any(|e| matches!(&e.element_type, ElementType::Fragment { .. }));
    assert!(has_fragment, "Should have a fragment element");
}

#[test]
fn test_activation_layout() {
    let engine = SequenceLayoutEngine::new();
    let mut diagram = SequenceDiagram::new();
    diagram.add_participant(Participant::as_participant("Alice"));
    diagram.add_participant(Participant::as_participant("Bob"));
    let mut msg = Message::new("Alice", "Bob", "Request");
    msg.activate = true;
    diagram.add_element(SequenceElement::Message(msg));
    let mut reply = Message::new("Bob", "Alice", "Response");
    reply.deactivate = true;
    diagram.add_element(SequenceElement::Message(reply));
    let result = engine.layout(&diagram);
    let activation_count = result
        .elements
        .iter()
        .filter(|e| {
            e.id.starts_with("activation_")
                && matches!(&e.element_type, ElementType::Activation)
        })
        .count();
    assert!(activation_count >= 1, "Should have at least one activation element");
}

#[test]
fn test_nested_activation() {
    let engine = SequenceLayoutEngine::new();
    let mut diagram = SequenceDiagram::new();
    diagram.add_participant(Participant::as_participant("Alice"));
    diagram.add_element(SequenceElement::Activation(Activation {
        participant: "Alice".to_string(),
        activation_type: ActivationType::Activate,
        color: None,
    }));
    diagram.add_element(SequenceElement::Activation(Activation {
        participant: "Alice".to_string(),
        activation_type: ActivationType::Activate,
        color: None,
    }));
    diagram.add_element(SequenceElement::Message(Message::new("Alice", "Alice", "Think")));
    diagram.add_element(SequenceElement::Activation(Activation {
        participant: "Alice".to_string(),
        activation_type: ActivationType::Deactivate,
        color: None,
    }));
    diagram.add_element(SequenceElement::Activation(Activation {
        participant: "Alice".to_string(),
        activation_type: ActivationType::Deactivate,
        color: None,
    }));
    let result = engine.layout(&diagram);
    let activation_count = result.elements.iter().filter(|e| e.id.starts_with("activation_")).count();
    assert_eq!(activation_count, 2, "Should have 2 activation rectangles for nested activations");
}

#[test]
fn test_participant_with_alias() {
    let engine = SequenceLayoutEngine::new();
    let mut diagram = SequenceDiagram::new();
    let mut participant = Participant::as_participant("Сервис Обработки");
    participant.id.alias = Some("Processor".to_string());
    diagram.add_participant(participant);
    diagram.add_element(SequenceElement::Message(Message::new(
        "Processor",
        "Processor",
        "Инициализация",
    )));
    let result = engine.layout(&diagram);
    let participant_count = result.elements.iter().filter(|e| e.id.starts_with("participant_")).count();
    assert_eq!(
        participant_count, 1,
        "Should have exactly 1 participant header, got {}",
        participant_count
    );
    let footer_count = result.elements.iter().filter(|e| e.id.starts_with("footer_")).count();
    assert_eq!(footer_count, 1, "Should have exactly 1 participant footer, got {}", footer_count);
}

#[test]
fn test_layout_simple_state_machine() {
    let mut diagram = StateDiagram::new();
    diagram.add_transition(Transition::new("[*]", "Active"));
    diagram.add_transition(Transition::new("Active", "Inactive").with_event("timeout"));
    diagram.add_transition(Transition::new("Inactive", "[*]"));
    let engine = StateLayoutEngine::new();
    let result = engine.layout(&diagram);
    assert!(result.elements.len() >= 6);
}

#[test]
fn test_layout_composite_state() {
    let mut diagram = StateDiagram::new();
    let mut composite = State::composite("Active");
    composite.internal_transitions.push(Transition::new("[*]", "Idle"));
    composite.internal_transitions.push(Transition::new("Idle", "Running").with_event("start"));
    composite.internal_transitions.push(Transition::new("Running", "Paused").with_event("pause"));
    composite.internal_transitions.push(Transition::new("Paused", "Running").with_event("resume"));
    composite.internal_transitions.push(Transition::new("Running", "Idle").with_event("stop"));
    diagram.add_state(composite);
    diagram.add_transition(Transition::new("[*]", "Active"));
    diagram.add_transition(Transition::new("Active", "Inactive").with_event("disable"));
    diagram.add_transition(Transition::new("Inactive", "Active").with_event("enable"));
    diagram.add_transition(Transition::new("Inactive", "[*]").with_event("delete"));
    let engine = StateLayoutEngine::new();
    let result = engine.layout(&diagram);
    let composite_elements: Vec<_> = result.elements.iter().filter(|e| e.id.contains("Active")).collect();
    assert!(!composite_elements.is_empty(), "Должны быть элементы для Active");
    let inactive_in_active = result
        .elements
        .iter()
        .any(|e| e.id.starts_with("Active_inner_") && e.id.contains("Inactive"));
    assert!(!inactive_in_active, "Inactive не должен быть внутри Active");
}

#[test]
fn test_state_diagram_ok_accepts_small_machine() {
    let mut diagram = StateDiagram::new();
    diagram.add_transition(Transition::new("[*]", "Active"));
    diagram.add_transition(Transition::new("Active", "[*]"));
    assert!(state_diagram_ok(&diagram));
}

#[test]
fn test_state_diagram_ok_rejects_oversized_name() {
    let mut diagram = StateDiagram::new();
    let long_name = "x".repeat(5000);
    diagram.add_state(State::simple(&long_name));
    assert!(!state_diagram_ok(&diagram));
}

#[test]
fn test_layout_places_initial_and_final_nodes() {
    let mut diagram = StateDiagram::new();
    diagram.add_transition(Transition::new("[*]", "Active"));
    diagram.add_transition(Transition::new("Active", "[*]"));
    let result = StateLayoutEngine::new().layout(&diagram);
    let has_initial = result
        .elements
        .iter()
        .any(|e| matches!(e.element_type, ElementType::InitialState));
    let has_final = result
        .elements
        .iter()
        .any(|e| matches!(e.element_type, ElementType::FinalState));
    assert!(has_initial, "expected an initial node");
    assert!(has_final, "expected a final node");
}

#[test]
fn test_fragment_first_section_inherits_condition() {
    let engine = SequenceLayoutEngine::new();
    let mut diagram = SequenceDiagram::new();
    diagram.add_participant(Participant::as_participant("Alice"));
    diagram.add_participant(Participant::as_participant("Bob"));
    let fragment = Fragment {
        fragment_type: FragmentType::Opt,
        condition: Some("ready".to_string()),
        sections: vec![FragmentSection {
            condition: None,
            elements: vec![SequenceElement::Message(Message::new("Alice", "Bob", "go"))],
        }],
    };
    diagram.add_element(SequenceElement::Fragment(fragment));
    let result = engine.layout(&diagram);
    let frag = result
        .elements
        .iter()
        .find_map(|e| match &e.element_type {
            ElementType::Fragment { sections, .. } => Some(sections),
            _ => None,
        })
        .expect("expected a fragment element");
    assert_eq!(frag[0].condition.as_deref(), Some("ready"));
}

#[test]
fn test_long_message_label_widens_participant_gap() {
    fn bob_x(label: &str) -> i64 {
        let engine = SequenceLayoutEngine::new();
        let mut diagram = SequenceDiagram::new();
        diagram.add_participant(Participant::as_participant("Alice"));
        diagram.add_participant(Participant::as_participant("Bob"));
        diagram.add_element(SequenceElement::Message(Message::new("Alice", "Bob", label)));
        let result = engine.layout(&diagram);
        result
            .elements
            .iter()
            .find(|e| e.id == "participant_Bob")
            .expect("Bob's header")
            .bounds
            .x
    }
    let long_label = "x".repeat(60);
    assert!(bob_x(&long_label) > bob_x("hi"), "a long label must push the next participant right");
}
