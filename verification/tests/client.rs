use tasks_rust::client::{
    advance, classify_input, compose_calculation, get_valid_input, service_of, normalize_input, reply_text, select_service,
    begin_calculation, Flavor, InputError, Service, Stage, Step,
};

fn ask(step: Step) -> (Stage, String) {
    match step {
        Step::Ask { stage, output } => (stage, output),
        _ => panic!("expected a question"),
    }
}

#[test]
fn normalizes_lines() {
    assert_eq!(normalize_input("  Hello World \n"), "hello world");
    assert_eq!(normalize_input("ÄB"), "äb");
}

#[test]
fn datagram_client_checks_choices() {
    let ops = vec!["+", "-"];
    assert_eq!(get_valid_input(Flavor::Udp, Some(" + \n"), Some(&ops)).unwrap(), "+");
    assert_eq!(get_valid_input(Flavor::Udp, Some("*\n"), Some(&ops)), Err(InputError::NotInList));
    assert_eq!(get_valid_input(Flavor::Udp, Some("12\n"), None).unwrap(), "12");
    assert_eq!(get_valid_input(Flavor::Udp, None, None), Err(InputError::InvalidInput));
    let yes = vec!["y", "Yes"];
    assert!(get_valid_input(Flavor::Udp, Some("Y\n"), Some(&yes)).is_ok());
    assert!(get_valid_input(Flavor::Udp, Some("Yes\n"), Some(&yes)).is_err());
}

#[test]
fn stream_client_checks_nothing() {
    let ops = vec!["+", "-"];
    assert_eq!(get_valid_input(Flavor::Tcp, Some("*\n"), Some(&ops)).unwrap(), "*");
    assert_eq!(get_valid_input(Flavor::Tcp, Some("12\n"), None), Err(InputError::InvalidInput));
    assert_eq!(InputError::InvalidInput.message(), "Invalid input");
    assert_eq!(InputError::NotInList.message(), "Input is not in the valid list");
}

#[test]
fn datagram_client_asks_in_turn() {
    let (stage, out) = ask(begin_calculation(Flavor::Udp));
    assert_eq!(out, "First number: \n");
    let (stage, out) = ask(advance(Flavor::Udp, stage, Some("12\n")));
    assert_eq!(out, "Operator: [+ -] \n");
    let (stage, out) = ask(advance(Flavor::Udp, stage, Some("x\n")));
    assert_eq!(out, "Invalid operator, please try again: \n");
    let (stage, out) = ask(advance(Flavor::Udp, stage, Some("-\n")));
    assert_eq!(out, "Second number: \n");
    match advance(Flavor::Udp, stage, Some(" 5 \n")) {
        Step::Done { calculation } => assert_eq!(calculation, "12 - 5"),
        _ => panic!("expected a calculation"),
    }
}

#[test]
fn datagram_client_starts_over_on_bad_numbers() {
    let (stage, _) = ask(begin_calculation(Flavor::Udp));
    let (stage, out) = ask(advance(Flavor::Udp, stage, None));
    assert_eq!(out, "Recieved no input for first number, Invalid input\nFirst number: \n");
    let (stage, _) = ask(advance(Flavor::Udp, stage, Some("one\n")));
    let (stage, _) = ask(advance(Flavor::Udp, stage, Some("+\n")));
    let (stage, out) = ask(advance(Flavor::Udp, stage, Some("2\n")));
    assert!(matches!(stage, Stage::First));
    assert_eq!(out, "Invalid input, please try again\nFirst number: \n");
    let (stage, _) = ask(advance(Flavor::Udp, stage, Some("1\n")));
    let (stage, _) = ask(advance(Flavor::Udp, stage, Some("+\n")));
    match advance(Flavor::Udp, stage, None) {
        Step::Abort { message } => assert_eq!(message, "Recieved no input for second number"),
        _ => panic!("expected an abort"),
    }
}

#[test]
fn stream_client_gives_up_on_the_first_number() {
    let (stage, out) = ask(begin_calculation(Flavor::Tcp));
    assert_eq!(out, "First number: ");
    match advance(Flavor::Tcp, stage, Some("12\n")) {
        Step::Abort { message } => assert_eq!(message, "Recieved no input for first number"),
        _ => panic!("expected an abort"),
    }
}

#[test]
fn stream_client_operator_and_second_number() {
    let stage = Stage::Operator { first: "7".to_string() };
    let (stage, out) = ask(advance(Flavor::Tcp, stage, Some("*\n")));
    assert_eq!(out, "Second number: ");
    match advance(Flavor::Tcp, stage, Some("3\n")) {
        Step::Abort { message } => assert_eq!(message, "Recieved no input for second number"),
        _ => panic!("expected an abort"),
    }
    let (_, out) = ask(advance(Flavor::Tcp, Stage::Operator { first: "7".to_string() }, None));
    assert_eq!(out, "Invalid operator, please try again: ");
}

#[test]
fn composes_requests() {
    assert_eq!(compose_calculation("1", "+", "2"), "1 + 2");
}

#[test]
fn selects_services() {
    assert_eq!(select_service("Server\n"), Service::Server);
    assert_eq!(select_service("  s "), Service::Server);
    assert_eq!(select_service("CLIENT\n"), Service::Client);
    assert_eq!(select_service("c"), Service::Client);
    assert_eq!(select_service("servers"), Service::Invalid);
    assert_eq!(select_service(""), Service::Invalid);
}

#[test]
fn reads_replies() {
    let mut buf = [32u8; 999];
    buf[..3].copy_from_slice(b"-42");
    assert_eq!(reply_text(&buf), "-42");
}

#[test]
fn client_requests_are_computed_by_the_server() {
    for (a, op, b, expected) in [("12", "+", "30", 42), ("-5", "-", "+7", -12)] {
        let request = compose_calculation(a, op, b);
        assert_eq!(tasks_rust::calculator::calculate(&request), Ok(expected));
    }
}

#[test]
fn classifies_words() {
    let ops = vec!["+", "-"];
    assert_eq!(classify_input(Flavor::Udp, "-".to_string(), Some(&ops)).unwrap(), "-");
    assert_eq!(classify_input(Flavor::Udp, "x".to_string(), Some(&ops)), Err(InputError::NotInList));
    assert_eq!(classify_input(Flavor::Tcp, "x".to_string(), None), Err(InputError::InvalidInput));
    assert_eq!(service_of("s"), Service::Server);
    assert_eq!(service_of("S"), Service::Invalid);
}

#[test]
fn server_answers_read_back() {
    let reply = tasks_rust::calculator::answer("-50 + 8").unwrap();
    let result = reply.result.unwrap();
    let mut buf = [32u8; 999];
    buf[..result.len()].copy_from_slice(result.as_bytes());
    let text = reply_text(&buf);
    assert_eq!(text, "-42");
    assert_eq!(text.parse::<i32>(), Ok(-42));
}
