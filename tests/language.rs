use heroesoftheswarm::error::GenericError;
use heroesoftheswarm::swarm_language::{CompileError, SwarmCommand, SwarmProgram};

#[test]
fn test_comlist_generator() {
    let program: String =
        "MOVE\nFIRE\nMOVE\nTURN -30.0\nNOOP\nNOOP\n\t \n  \t\n\nMOVE\nFIRE".into();
    let command_list: SwarmProgram = match program.parse() {
        Ok(comlist) => comlist,
        Err(error) => {
            let error: GenericError = error;
            panic!("Program failed with error: {}", error.to_string())
        }
    };
    assert_eq!(command_list.commands[0], SwarmCommand::MOVE);
    assert_eq!(command_list.commands[1], SwarmCommand::FIRE);
    assert_eq!(command_list.commands[2], SwarmCommand::MOVE);
    assert_eq!(command_list.commands[3], SwarmCommand::TURN(-30_000));
    assert_eq!(command_list.commands[4], SwarmCommand::NOOP);
    assert_eq!(command_list.commands[5], SwarmCommand::NOOP);
    assert_eq!(command_list.commands[6], SwarmCommand::MOVE);
    assert_eq!(command_list.commands[7], SwarmCommand::FIRE);
}

#[test]
#[should_panic]
fn parse_swarm_command() {
    let _command: SwarmCommand = "test".parse().unwrap();
}

#[test]
#[should_panic]
fn parse_swarm_program() {
    let _command: SwarmProgram = "test".parse().unwrap();
}

#[test]
fn compiles_five_commands_in_order() {
    let p = SwarmProgram::compile("MOVE\nFIRE\nMOVE\nTURN -30.0\nNOOP\n").unwrap();
    assert_eq!(
        p.commands,
        vec![
            SwarmCommand::MOVE,
            SwarmCommand::FIRE,
            SwarmCommand::MOVE,
            SwarmCommand::TURN(-30_000),
            SwarmCommand::NOOP,
        ]
    );
    assert_eq!(p.program_counter, 0);
}

#[test]
fn turn_beyond_limit_is_out_of_range() {
    let e = SwarmProgram::compile("TURN 40.0").unwrap_err();
    assert_eq!(e, CompileError::ParameterOutOfRange);
    assert_eq!(e.description(), "Input parameter float should range from -30.0 to 30.0.");
    assert_eq!(
        SwarmProgram::compile("TURN 30.001").unwrap_err(),
        CompileError::ParameterOutOfRange
    );
    assert_eq!(
        SwarmProgram::compile("TURN -99999999999999999999999").unwrap_err(),
        CompileError::ParameterOutOfRange
    );
}

#[test]
fn turn_without_argument_is_missing_parameter() {
    let e = SwarmProgram::compile("TURN").unwrap_err();
    assert_eq!(e, CompileError::MissingParameter);
    assert_eq!(e.description(), "No parameters found for TURN.");
    assert_eq!(
        SwarmProgram::compile("TURN 1 2").unwrap_err(),
        CompileError::MissingParameter
    );
}

#[test]
fn unknown_keyword_is_rejected() {
    let e = SwarmProgram::compile("MOVE\nJUMP\n").unwrap_err();
    assert_eq!(e, CompileError::UnknownCommand);
    assert_eq!(e.description(), "Command not recognized.");
}

#[test]
fn malformed_angles_are_rejected() {
    for text in [
        "TURN abc", "TURN 0", "TURN -0.0", "TURN 0e5", "TURN 1.2.3", "TURN .", "TURN -", "TURN inf",
        "TURN NaN", "TURN 1e", "TURN e5", "TURN 1e+", "TURN 1e5e1", "TURN 1e39", "TURN 1e-39",
        "TURN 1e-38", "TURN 1.1e-38", "TURN 9e38", "TURN -3.5e38",
        "TURN 340282356779733661637539395458142568448",
        "TURN 0.000000000000000000000000000000000000011754942807573642917278829910357665133228589927589904276829631184250030649651730385585324256680905818939208984374",
        "TURN 1e-100000000000000000000000", "TURN 5e100000000000000000000000",
    ] {
        assert_eq!(
            SwarmProgram::compile(text).unwrap_err(),
            CompileError::MalformedParameter,
            "{}",
            text
        );
    }
    assert_eq!(
        CompileError::MalformedParameter.description(),
        "Invalid float parameter for TURN."
    );
}

#[test]
fn angle_forms_are_read_in_thousandths() {
    let p = SwarmProgram::compile("turn +5\nTuRn -.5\nTURN 29.5\nTURN 30\nTURN 0.001").unwrap();
    assert_eq!(
        p.commands,
        vec![
            SwarmCommand::TURN(5_000),
            SwarmCommand::TURN(-500),
            SwarmCommand::TURN(29_500),
            SwarmCommand::TURN(30_000),
            SwarmCommand::TURN(1),
        ]
    );
}

#[test]
fn float_forms_are_read_and_rounded() {
    let p = SwarmProgram::compile(
        "TURN 1e1\nTURN 2.5E1\nTURN 12.5000\nTURN 1.2345\nTURN -0.0005\nTURN 0.0004\nTURN 300e-1\nTURN .5e1\nTURN 1.2e-38\nTURN -29.99951\nTURN 30.0000001\nTURN 30.00000095367431640625\nTURN 0.000000000000000000000000000000000000011754942807573642917278829910357665133228589927589904276829631184250030649651730385585324256680905818939208984375",
    )
    .unwrap();
    assert_eq!(
        p.commands,
        vec![
            SwarmCommand::TURN(10_000),
            SwarmCommand::TURN(25_000),
            SwarmCommand::TURN(12_500),
            SwarmCommand::TURN(1_235),
            SwarmCommand::TURN(-1),
            SwarmCommand::TURN(0),
            SwarmCommand::TURN(30_000),
            SwarmCommand::TURN(5_000),
            SwarmCommand::TURN(0),
            SwarmCommand::TURN(-30_000),
            SwarmCommand::TURN(30_000),
            SwarmCommand::TURN(30_000),
            SwarmCommand::TURN(0),
        ]
    );
    for text in [
        "TURN 3.0001e1", "TURN 1e+2", "TURN 30.00000095367431640626", "TURN 3.4e38",
        "TURN 340282356779733661637539395458142568447",
    ] {
        assert_eq!(
            SwarmProgram::compile(text).unwrap_err(),
            CompileError::ParameterOutOfRange,
            "{}",
            text
        );
    }
}

#[test]
fn keywords_match_by_unicode_upper_case() {
    assert_eq!(SwarmCommand::parse("f\u{131}re"), Ok(SwarmCommand::FIRE));
    assert_eq!(SwarmCommand::parse("\u{fb01}re"), Ok(SwarmCommand::FIRE));
    assert_eq!(SwarmCommand::parse("tUrN 1"), Ok(SwarmCommand::TURN(1_000)));
    assert_eq!(SwarmCommand::parse("MOVES"), Err(CompileError::UnknownCommand));
}

#[test]
fn keywords_ignore_case_and_extra_space() {
    let p = SwarmProgram::compile("  move \r\n\n\tFiRe\u{a0}\nnoop").unwrap();
    assert_eq!(
        p.commands,
        vec![SwarmCommand::MOVE, SwarmCommand::FIRE, SwarmCommand::NOOP]
    );
}

#[test]
fn empty_text_compiles_to_empty_program() {
    let p = SwarmProgram::compile(" \n\n\t").unwrap();
    assert!(p.commands.is_empty());
}

#[test]
fn program_length_is_capped() {
    let twenty = "MOVE\n".repeat(20);
    assert_eq!(SwarmProgram::compile(&twenty).unwrap().commands.len(), 20);
    let twenty_one = "MOVE\n".repeat(21);
    let e = SwarmProgram::compile(&twenty_one).unwrap_err();
    assert_eq!(e, CompileError::TooLong);
    assert_eq!(e.description(), "Program is too long: use fewer commands.");
}

#[test]
fn first_error_in_line_order_wins() {
    let mut text = "MOVE\n".repeat(21);
    text.push_str("JUMP\n");
    assert_eq!(SwarmProgram::compile(&text).unwrap_err(), CompileError::TooLong);
    let mut text = "JUMP\n".to_string();
    text.push_str(&"MOVE\n".repeat(30));
    assert_eq!(
        SwarmProgram::compile(&text).unwrap_err(),
        CompileError::UnknownCommand
    );
}

#[test]
fn single_command_parse() {
    assert_eq!(SwarmCommand::parse("  fire "), Ok(SwarmCommand::FIRE));
    assert_eq!(SwarmCommand::parse("turn\n-12.25"), Ok(SwarmCommand::TURN(-12_250)));
    assert_eq!(SwarmCommand::parse(" \t"), Err(CompileError::EmptyCommand));
    assert_eq!(
        CompileError::EmptyCommand.description(),
        "Command is white space (should be non-error)."
    );
    let g = CompileError::UnknownCommand.to_generic();
    assert_eq!(g.description, "Command not recognized.");
}

#[test]
fn generic_error_keeps_description() {
    let e = GenericError::new("boom".to_string());
    assert_eq!(e.description, "boom");
    assert_eq!(e.to_string(), "boom");
}
