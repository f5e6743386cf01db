use plantuml_core::ast::ActivationType;
use plantuml_core::ast::AutonumberCommand;
use plantuml_core::ast::LineStyle;
use plantuml_core::ast::NotePosition;
use plantuml_core::ast::ParticipantType;
use plantuml_core::ast::SequenceElement;
use plantuml_core::parse_sequence;

#[test]
fn test_parse_basic_sequence() {
    let source = "@startuml\nAlice -> Bob: Hello\nBob --> Alice: Hi\n@enduml";
    let result = parse_sequence(source);
    assert!(result.is_ok(), "Parse error: {:?}", result.err());
    let diagram = result.unwrap();
    assert_eq!(diagram.elements.len(), 2);
}

#[test]
fn test_parse_participants() {
    let source = "@startuml\nparticipant Alice\nactor Bob\ndatabase DB\nAlice -> Bob: message\n@enduml";
    let result = parse_sequence(source);
    assert!(result.is_ok(), "Parse error: {:?}", result.err());
    let diagram = result.unwrap();
    assert_eq!(diagram.participants.len(), 3);
    assert_eq!(diagram.participants[0].id.name, "Alice");
    assert_eq!(diagram.participants[0].participant_type, ParticipantType::Participant);
    assert_eq!(diagram.participants[1].participant_type, ParticipantType::Actor);
    assert_eq!(diagram.participants[2].participant_type, ParticipantType::Database);
}

#[test]
fn test_parse_participant_with_alias() {
    let source = "@startuml\nparticipant \"Сервис Обработки\" as Processor\nProcessor -> Processor: Инициализация\n@enduml";
    let result = parse_sequence(source);
    assert!(result.is_ok(), "Parse error: {:?}", result.err());
    let diagram = result.unwrap();
    assert_eq!(
        diagram.participants.len(),
        1,
        "Expected 1 participant, got {}: {:?}",
        diagram.participants.len(),
        diagram.participants.iter().map(|p| (&p.id.name, &p.id.alias)).collect::<Vec<_>>()
    );
    assert_eq!(diagram.participants[0].id.name, "Сервис Обработки");
    assert_eq!(diagram.participants[0].id.alias, Some("Processor".to_string()));
    if let SequenceElement::Message(msg) = &diagram.elements[0] {
        assert_eq!(msg.from, "Processor");
        assert_eq!(msg.to, "Processor");
    } else {
        panic!("Expected Message");
    }
}

#[test]
fn test_parse_messages() {
    let source = "@startuml\nAlice -> Bob: Hello\nBob --> Alice: Hi\nAlice ->> Bob: Async\n@enduml";
    let result = parse_sequence(source);
    assert!(result.is_ok(), "Parse error: {:?}", result.err());
    let diagram = result.unwrap();
    assert_eq!(diagram.elements.len(), 3);
    if let SequenceElement::Message(msg) = &diagram.elements[0] {
        assert_eq!(msg.from, "Alice");
        assert_eq!(msg.to, "Bob");
        assert_eq!(msg.label, "Hello");
        assert_eq!(msg.line_style, LineStyle::Solid);
    } else {
        panic!("Expected Message");
    }
    if let SequenceElement::Message(msg) = &diagram.elements[1] {
        assert_eq!(msg.line_style, LineStyle::Dashed);
    } else {
        panic!("Expected Message");
    }
}

#[test]
fn test_parse_fragment() {
    let source = "@startuml\nAlice -> Bob: Request\n\nalt Success\n    Bob --> Alice: OK\nelse Failure\n    Bob --> Alice: Error\nend\n@enduml";
    let result = parse_sequence(source);
    assert!(result.is_ok(), "Parse error: {:?}", result.err());
    let diagram = result.unwrap();
    assert!(diagram.elements.len() >= 1);
}

#[test]
fn test_parse_activate_deactivate() {
    let source = "@startuml\nAlice -> Bob: Request\nactivate Bob\nBob --> Alice: Response\ndeactivate Bob\n@enduml";
    let result = parse_sequence(source);
    assert!(result.is_ok(), "Parse error: {:?}", result.err());
    let diagram = result.unwrap();
    assert_eq!(diagram.elements.len(), 4);
    match &diagram.elements[1] {
        SequenceElement::Activation(act) => {
            assert_eq!(act.participant, "Bob");
            assert_eq!(act.activation_type, ActivationType::Activate);
        }
        _ => panic!("Expected Activation after first message"),
    }
    match &diagram.elements[3] {
        SequenceElement::Activation(act) => {
            assert_eq!(act.participant, "Bob");
            assert_eq!(act.activation_type, ActivationType::Deactivate);
        }
        _ => panic!("Expected Deactivation after second message"),
    }
}

#[test]
fn test_parse_activate_with_color() {
    let source = "@startuml\nAlice -> Bob: Request\nactivate Bob #FFBBBB\nBob --> Alice: Response\ndeactivate Bob\n@enduml";
    let result = parse_sequence(source);
    assert!(result.is_ok(), "Parse error: {:?}", result.err());
    let diagram = result.unwrap();
    match &diagram.elements[1] {
        SequenceElement::Activation(act) => {
            assert_eq!(act.participant, "Bob");
            assert!(act.color.is_some(), "Expected color on activation");
        }
        _ => panic!("Expected Activation"),
    }
}

#[test]
fn test_parse_destroy() {
    let source = "@startuml\nAlice -> Bob: Request\ndestroy Bob\n@enduml";
    let result = parse_sequence(source);
    assert!(result.is_ok(), "Parse error: {:?}", result.err());
    let diagram = result.unwrap();
    match &diagram.elements[1] {
        SequenceElement::Activation(act) => {
            assert_eq!(act.participant, "Bob");
            assert_eq!(act.activation_type, ActivationType::Destroy);
        }
        _ => panic!("Expected Destroy activation"),
    }
}

#[test]
fn test_parse_note_right() {
    let source = "@startuml\nAlice -> Bob: Hello\nnote right: This is a note\n@enduml";
    let result = parse_sequence(source);
    assert!(result.is_ok(), "Parse error: {:?}", result.err());
    let diagram = result.unwrap();
    assert_eq!(diagram.elements.len(), 2);
    match &diagram.elements[1] {
        SequenceElement::Note(note) => {
            assert_eq!(note.position, NotePosition::Right);
            assert!(note.text.contains("This is a note"));
        }
        _ => panic!("Expected Note"),
    }
}

#[test]
fn test_parse_note_over() {
    let source = "@startuml\nAlice -> Bob: Hello\nnote over Alice, Bob: Shared note\n@enduml";
    let result = parse_sequence(source);
    assert!(result.is_ok(), "Parse error: {:?}", result.err());
    let diagram = result.unwrap();
    match &diagram.elements[1] {
        SequenceElement::Note(note) => {
            assert_eq!(note.position, NotePosition::Over);
            assert!(note.anchors.contains(&"Alice".to_string()));
            assert!(note.anchors.contains(&"Bob".to_string()));
        }
        _ => panic!("Expected Note"),
    }
}

#[test]
fn test_parse_divider() {
    let source = "@startuml\nAlice -> Bob: Hello\n== Section 1 ==\nBob --> Alice: Hi\n@enduml";
    let result = parse_sequence(source);
    assert!(result.is_ok(), "Parse error: {:?}", result.err());
    let diagram = result.unwrap();
    assert_eq!(diagram.elements.len(), 3);
    match &diagram.elements[1] {
        SequenceElement::Divider(div) => {
            assert_eq!(div.text, "Section 1");
        }
        _ => panic!("Expected Divider"),
    }
}

#[test]
fn test_parse_delay() {
    let source = "@startuml\nAlice -> Bob: Hello\n...5 minutes later...\nBob --> Alice: Hi\n@enduml";
    let result = parse_sequence(source);
    assert!(result.is_ok(), "Parse error: {:?}", result.err());
    let diagram = result.unwrap();
    match &diagram.elements[1] {
        SequenceElement::Delay(delay) => {
            assert!(delay.text.as_ref().unwrap().contains("minutes"));
        }
        _ => panic!("Expected Delay"),
    }
}

#[test]
fn test_parse_simple_box() {
    let source = "@startuml\nbox\nparticipant Alice\nend box\nAlice -> Alice: Test\n@enduml";
    let result = parse_sequence(source);
    assert!(result.is_ok(), "Parse error: {:?}", result.err());
    let diagram = result.unwrap();
    assert_eq!(diagram.boxes.len(), 1, "Expected 1 box");
    assert_eq!(diagram.boxes[0].participants.len(), 1, "Expected 1 participant in box");
}

#[test]
fn test_parse_box_with_title() {
    let source = "@startuml\nbox \"Frontend\"\nparticipant Alice\nend box\nAlice -> Alice: Test\n@enduml";
    let result = parse_sequence(source);
    assert!(result.is_ok(), "Parse error: {:?}", result.err());
    let diagram = result.unwrap();
    assert_eq!(diagram.boxes.len(), 1, "Expected 1 box");
    assert_eq!(diagram.boxes[0].title, Some("Frontend".to_string()));
}

#[test]
fn test_parse_box_with_color() {
    let source = "@startuml\nbox \"Frontend\" #LightBlue\nparticipant Alice\nend box\nAlice -> Alice: Test\n@enduml";
    let result = parse_sequence(source);
    assert!(result.is_ok(), "Parse error: {:?}", result.err());
    let diagram = result.unwrap();
    assert_eq!(diagram.boxes.len(), 1, "Expected 1 box");
    assert!(diagram.boxes[0].color.is_some(), "Expected color in box");
}

#[test]
fn test_parse_box_with_cyrillic_title() {
    let source = "@startuml\nbox \"Фронтенд\" #LightBlue\nparticipant \"React App\" as React\nend box\nReact -> React: test\n@enduml";
    let result = parse_sequence(source);
    assert!(result.is_ok(), "Parse error: {:?}", result.err());
    let diagram = result.unwrap();
    assert_eq!(diagram.boxes.len(), 1, "Expected 1 box");
    assert_eq!(diagram.boxes[0].title, Some("Фронтенд".to_string()));
}

#[test]
fn test_parse_full_box_example() {
    let source = "@startuml\nbox \"Фронтенд\" #LightBlue\n    participant \"React App\" as React\n    participant \"Redux Store\" as Redux\nend box\n\nbox \"Бэкенд\" #LightGreen\n    participant \"API Gateway\" as API\n    participant \"Auth Service\" as Auth\n    participant \"User Service\" as User\nend box\n\nReact -> Redux: dispatch(login)\nRedux -> API: POST /auth/login\nAPI -> Auth: validateCredentials\nAuth -> User: getUserById\nUser --> Auth: user data\nAuth --> API: JWT token\nAPI --> Redux: { token, user }\nRedux --> React: state updated\n@enduml";
    let result = parse_sequence(source);
    assert!(result.is_ok(), "Parse error: {:?}", result.err());
    let diagram = result.unwrap();
    assert_eq!(diagram.boxes.len(), 2, "Expected 2 boxes");
    assert_eq!(diagram.boxes[0].title, Some("Фронтенд".to_string()));
    assert_eq!(diagram.boxes[1].title, Some("Бэкенд".to_string()));
    assert_eq!(diagram.participants.len(), 5, "Expected 5 participants");
}

#[test]
fn test_parse_shortcut_activation() {
    let source = "@startuml\nAlice -> Bob++: hello\nBob --> Alice: response\n@enduml";
    let result = parse_sequence(source);
    assert!(result.is_ok(), "Parse error: {:?}", result.err());
    let diagram = result.unwrap();
    assert_eq!(diagram.elements.len(), 2);
    match &diagram.elements[0] {
        SequenceElement::Message(msg) => {
            assert_eq!(msg.from, "Alice");
            assert_eq!(msg.to, "Bob");
            assert!(msg.activate, "Expected activate=true for Bob++");
            assert!(!msg.deactivate, "Expected deactivate=false");
        }
        _ => panic!("Expected Message"),
    }
}

#[test]
fn test_parse_shortcut_activation_with_color() {
    let source = "@startuml\nAlice -> Bob++ #FFBBBB: hello\n@enduml";
    let result = parse_sequence(source);
    assert!(result.is_ok(), "Parse error: {:?}", result.err());
    let diagram = result.unwrap();
    match &diagram.elements[0] {
        SequenceElement::Message(msg) => {
            assert!(msg.activate, "Expected activate=true");
            assert!(msg.color.is_some(), "Expected color for activation");
        }
        _ => panic!("Expected Message"),
    }
}

#[test]
fn test_parse_shortcut_deactivate_activate() {
    let source = "@startuml\nAlice -> Bob--++: hello\n@enduml";
    let result = parse_sequence(source);
    assert!(result.is_ok(), "Parse error: {:?}", result.err());
    let diagram = result.unwrap();
    match &diagram.elements[0] {
        SequenceElement::Message(msg) => {
            assert!(msg.activate, "Expected activate=true for Bob");
            assert!(msg.deactivate, "Expected deactivate=true for Alice");
        }
        _ => panic!("Expected Message"),
    }
}

#[test]
fn test_parse_shortcut_create() {
    let source = "@startuml\nAlice -> Bob**: create new\n@enduml";
    let result = parse_sequence(source);
    assert!(result.is_ok(), "Parse error: {:?}", result.err());
    let diagram = result.unwrap();
    match &diagram.elements[0] {
        SequenceElement::Message(msg) => {
            assert!(msg.create, "Expected create=true for Bob");
            assert!(!msg.activate, "Expected activate=false");
        }
        _ => panic!("Expected Message"),
    }
}

#[test]
fn test_parse_shortcut_destroy() {
    let source = "@startuml\nAlice -> Bob!!: destroy\n@enduml";
    let result = parse_sequence(source);
    assert!(result.is_ok(), "Parse error: {:?}", result.err());
    let diagram = result.unwrap();
    match &diagram.elements[0] {
        SequenceElement::Message(msg) => {
            assert!(msg.destroy, "Expected destroy=true for Bob");
        }
        _ => panic!("Expected Message"),
    }
}

#[test]
fn test_parse_complex_activation_example() {
    let source = "@startuml\nparticipant \"Потребитель API\" as apiConsumer\nparticipant \"IGA.SSO\" as iam\n\napiConsumer->iam++: Атентификация - Client Credentials flow\niam-->apiConsumer: Технический токен\n@enduml";
    let result = parse_sequence(source);
    assert!(result.is_ok(), "Parse error: {:?}", result.err());
    let diagram = result.unwrap();
    assert_eq!(diagram.participants.len(), 2);
    assert_eq!(diagram.elements.len(), 2);
    match &diagram.elements[0] {
        SequenceElement::Message(msg) => {
            assert_eq!(msg.from, "apiConsumer");
            assert_eq!(msg.to, "iam");
            assert!(msg.activate, "Expected iam to be activated via ++");
        }
        _ => panic!("Expected Message"),
    }
}

#[test]
fn test_parse_autonumber_basic() {
    let source = "@startuml\nautonumber\nAlice -> Bob: first\nAlice -> Bob: second\n@enduml";
    let result = parse_sequence(source);
    assert!(result.is_ok(), "Parse error: {:?}", result.err());
    let diagram = result.unwrap();
    match &diagram.elements[0] {
        SequenceElement::Autonumber(cmd) => match cmd {
            AutonumberCommand::Start(params) => {
                assert!(params.start.is_none() || params.start == Some(1));
            }
            _ => panic!("Expected AutonumberCommand::Start"),
        },
        _ => panic!("Expected Autonumber element"),
    }
}

#[test]
fn test_parse_autonumber_with_start() {
    let source = "@startuml\nautonumber 10\nAlice -> Bob: message\n@enduml";
    let result = parse_sequence(source);
    assert!(result.is_ok(), "Parse error: {:?}", result.err());
    let diagram = result.unwrap();
    match &diagram.elements[0] {
        SequenceElement::Autonumber(AutonumberCommand::Start(params)) => {
            assert_eq!(params.start, Some(10));
        }
        _ => panic!("Expected Autonumber with start=10"),
    }
}

#[test]
fn test_parse_autonumber_with_start_and_step() {
    let source = "@startuml\nautonumber 10 5\nAlice -> Bob: message\n@enduml";
    let result = parse_sequence(source);
    assert!(result.is_ok(), "Parse error: {:?}", result.err());
    let diagram = result.unwrap();
    match &diagram.elements[0] {
        SequenceElement::Autonumber(AutonumberCommand::Start(params)) => {
            assert_eq!(params.start, Some(10));
            assert_eq!(params.step, Some(5));
        }
        _ => panic!("Expected Autonumber with start=10, step=5"),
    }
}

#[test]
fn test_parse_autonumber_with_format() {
    let source = "@startuml\nautonumber \"[00]\"\nAlice -> Bob: message\n@enduml";
    let result = parse_sequence(source);
    assert!(result.is_ok(), "Parse error: {:?}", result.err());
    let diagram = result.unwrap();
    match &diagram.elements[0] {
        SequenceElement::Autonumber(AutonumberCommand::Start(params)) => {
            assert_eq!(params.format, Some("[00]".to_string()));
        }
        _ => panic!("Expected Autonumber with format"),
    }
}

#[test]
fn test_parse_autonumber_with_all_params() {
    let source = "@startuml\nautonumber 10 5 \"[000]\"\nAlice -> Bob: message\n@enduml";
    let result = parse_sequence(source);
    assert!(result.is_ok(), "Parse error: {:?}", result.err());
    let diagram = result.unwrap();
    match &diagram.elements[0] {
        SequenceElement::Autonumber(AutonumberCommand::Start(params)) => {
            assert_eq!(params.start, Some(10));
            assert_eq!(params.step, Some(5));
            assert_eq!(params.format, Some("[000]".to_string()));
        }
        _ => panic!("Expected Autonumber with all params"),
    }
}

#[test]
fn test_parse_autonumber_stop() {
    let source = "@startuml\nautonumber\nAlice -> Bob: first\nautonumber stop\nAlice -> Bob: second\n@enduml";
    let result = parse_sequence(source);
    assert!(result.is_ok(), "Parse error: {:?}", result.err());
    let diagram = result.unwrap();
    let mut found_stop = false;
    for element in &diagram.elements {
        if let SequenceElement::Autonumber(AutonumberCommand::Stop) = element {
            found_stop = true;
            break;
        }
    }
    assert!(found_stop, "Expected autonumber stop command");
}

#[test]
fn test_parse_autonumber_resume() {
    let source = "@startuml\nautonumber\nAlice -> Bob: first\nautonumber stop\nAlice -> Bob: second\nautonumber resume\nAlice -> Bob: third\n@enduml";
    let result = parse_sequence(source);
    assert!(result.is_ok(), "Parse error: {:?}", result.err());
    let diagram = result.unwrap();
    let mut found_resume = false;
    for element in &diagram.elements {
        if let SequenceElement::Autonumber(AutonumberCommand::Resume(_)) = element {
            found_resume = true;
            break;
        }
    }
    assert!(found_resume, "Expected autonumber resume command");
}

#[test]
fn test_parse_return_with_label() {
    let source = "@startuml\nAlice -> Bob++: request\nreturn response\n@enduml";
    let result = parse_sequence(source);
    assert!(result.is_ok(), "Parse error: {:?}", result.err());
    let diagram = result.unwrap();
    match &diagram.elements[1] {
        SequenceElement::Return(ret) => {
            assert_eq!(ret.label, Some("response".to_string()));
        }
        _ => panic!("Expected Return element"),
    }
}

#[test]
fn test_parse_return_without_label() {
    let source = "@startuml\nAlice -> Bob++: request\nreturn\n@enduml";
    let result = parse_sequence(source);
    assert!(result.is_ok(), "Parse error: {:?}", result.err());
    let diagram = result.unwrap();
    match &diagram.elements[1] {
        SequenceElement::Return(ret) => {
            assert!(ret.label.is_none());
        }
        _ => panic!("Expected Return element"),
    }
}

#[test]
fn test_parse_full_example_with_autonumber_and_return() {
    let source = "@startuml\nautonumber \"[00]\"\n\nparticipant \"Потребитель API\" as apiConsumer\nparticipant \"IGA.SSO\" as iam\nparticipant \"Integration Platform\" as ip\n\napiConsumer->iam++: Атентификация\nautonumber stop\nreturn Технический токен\nautonumber resume\n\napiConsumer->ip++: Запрос через API\nautonumber stop\nreturn Ответ\nautonumber resume\n@enduml";
    let result = parse_sequence(source);
    assert!(result.is_ok(), "Parse error: {:?}", result.err());
    let diagram = result.unwrap();
    let mut has_autonumber_start = false;
    let mut has_autonumber_stop = false;
    let mut has_autonumber_resume = false;
    let mut has_return = false;
    let mut return_count = 0;
    for element in &diagram.elements {
        match element {
            SequenceElement::Autonumber(AutonumberCommand::Start(params)) => {
                has_autonumber_start = true;
                assert_eq!(params.format, Some("[00]".to_string()));
            }
            SequenceElement::Autonumber(AutonumberCommand::Stop) => {
                has_autonumber_stop = true;
            }
            SequenceElement::Autonumber(AutonumberCommand::Resume(_)) => {
                has_autonumber_resume = true;
            }
            SequenceElement::Return(_) => {
                has_return = true;
                return_count += 1;
            }
            _ => {}
        }
    }
    assert!(has_autonumber_start, "Expected autonumber start");
    assert!(has_autonumber_stop, "Expected autonumber stop");
    assert!(has_autonumber_resume, "Expected autonumber resume");
    assert!(has_return, "Expected return statements");
    assert_eq!(return_count, 2, "Expected 2 return statements");
}

#[test]
fn test_parse_shortcut_trailing_deactivate_ignored() {
    let source = "@startuml\nAlice -> Bob++--: hello\n@enduml";
    let result = parse_sequence(source);
    assert!(result.is_ok(), "Parse error: {:?}", result.err());
    let diagram = result.unwrap();
    match &diagram.elements[0] {
        SequenceElement::Message(msg) => {
            assert!(msg.activate, "Expected activate=true for Bob++");
            assert!(!msg.deactivate, "a `--` after another marker is not a deactivation");
        }
        _ => panic!("Expected Message"),
    }
}

#[test]
fn test_parse_shortcut_double_leading_deactivate() {
    let source = "@startuml\nAlice -> Bob----: bye\n@enduml";
    let result = parse_sequence(source);
    assert!(result.is_ok(), "Parse error: {:?}", result.err());
    let diagram = result.unwrap();
    match &diagram.elements[0] {
        SequenceElement::Message(msg) => {
            assert!(msg.deactivate, "a leading run of `--` deactivates the source");
            assert!(!msg.activate, "Expected activate=false");
        }
        _ => panic!("Expected Message"),
    }
}
