use tobiuo::{
    is_well_formed, pack, parse_dfa, parse_states, Action, CompileError, CompressedState, State,
};

fn compiled(action: Action, go: usize, wait: usize) -> CompressedState {
    CompressedState { action, go, wait }
}

fn declared(index: u16, action: Action, go: u16, wait: u16) -> State {
    State { index, action, go, wait }
}

#[test]
fn it_works() {
    assert_eq!(2 + 2, 4);
}

#[test]
fn single_state_compiles_to_a_self_loop() {
    assert_eq!(parse_dfa("0:g,0,0"), Ok(vec![compiled(Action::Go, 0, 0)]));
    assert_eq!(parse_dfa("0:w,0,0"), Ok(vec![compiled(Action::Wait, 0, 0)]));
}

#[test]
fn labels_become_positions_in_file_order() {
    let dfa = parse_dfa("7:g,3,7\n3:w,7,3\n").unwrap();
    assert_eq!(dfa, vec![compiled(Action::Go, 1, 0), compiled(Action::Wait, 0, 1)]);
}

#[test]
fn first_line_is_the_initial_state_whatever_its_label() {
    let dfa = parse_dfa("500:w,2,500\n2:g,500,2").unwrap();
    assert_eq!(dfa[0], compiled(Action::Wait, 1, 0));
    assert_eq!(dfa[1], compiled(Action::Go, 0, 1));
}

#[test]
fn compiled_successors_are_positions_of_the_automaton() {
    let text = "10:g,20,30\n20:w,30,10\n30:g,10,20\n40:w,40,10\n";
    let dfa = parse_dfa(text).unwrap();
    assert_eq!(dfa.len(), 4);
    assert!(is_well_formed(&dfa));
    for state in dfa.iter() {
        assert!(state.go < dfa.len());
        assert!(state.wait < dfa.len());
    }
    assert_eq!(dfa[3], compiled(Action::Wait, 3, 0));
}

#[test]
fn parse_states_keeps_the_labels_and_the_order() {
    assert_eq!(
        parse_states(b"7:g,3,7\n3:w,7,3"),
        Ok(vec![declared(7, Action::Go, 3, 7), declared(3, Action::Wait, 7, 3)])
    );
}

#[test]
fn a_line_may_end_with_carriage_return_and_line_feed() {
    assert_eq!(
        parse_dfa("1:g,2,1\r\n2:w,1,2\r\n"),
        Ok(vec![compiled(Action::Go, 1, 0), compiled(Action::Wait, 0, 1)])
    );
}

#[test]
fn the_last_line_needs_no_line_break() {
    assert_eq!(parse_dfa("1:g,1,1\n"), parse_dfa("1:g,1,1"));
}

#[test]
fn a_lone_carriage_return_ends_no_line() {
    assert_eq!(parse_dfa("1:g,1,1\r"), Err(CompileError::MalformedSyntax { line: 0 }));
    assert_eq!(parse_dfa("1:g,1,1\r1:g,1,1"), Err(CompileError::MalformedSyntax { line: 0 }));
}

#[test]
fn labels_may_have_leading_zeros() {
    assert_eq!(
        parse_states(b"007:w,0000000000000000000007,7"),
        Ok(vec![declared(7, Action::Wait, 7, 7)])
    );
}

#[test]
fn the_greatest_label_is_65535() {
    assert_eq!(
        parse_states(b"65535:g,65535,65535"),
        Ok(vec![declared(65535, Action::Go, 65535, 65535)])
    );
    assert_eq!(parse_dfa("65536:g,0,0"), Err(CompileError::MalformedSyntax { line: 0 }));
    assert_eq!(parse_dfa("0:g,65536,0"), Err(CompileError::MalformedSyntax { line: 0 }));
    assert_eq!(parse_dfa("0:g,0,70000"), Err(CompileError::MalformedSyntax { line: 0 }));
    assert_eq!(
        parse_dfa("0:g,0,0\n99999999999999999999999999:g,0,0"),
        Err(CompileError::MalformedSyntax { line: 1 })
    );
}

#[test]
fn a_later_declaration_of_a_label_shadows_an_earlier_one() {
    let dfa = parse_dfa("1:g,1,2\n2:w,1,1\n1:w,2,2\n").unwrap();
    assert_eq!(
        dfa,
        vec![
            compiled(Action::Go, 2, 1),
            compiled(Action::Wait, 2, 2),
            compiled(Action::Wait, 1, 1),
        ]
    );
}

#[test]
fn missing_colon_is_malformed() {
    assert_eq!(parse_dfa("5g,1,2"), Err(CompileError::MalformedSyntax { line: 0 }));
    assert_eq!(
        parse_dfa("1:g,1,2\n2:w,1,2\n5g,1,2\n"),
        Err(CompileError::MalformedSyntax { line: 2 })
    );
}

#[test]
fn malformed_lines_are_reported_by_their_position() {
    assert_eq!(parse_dfa("0:x,0,0"), Err(CompileError::MalformedSyntax { line: 0 }));
    assert_eq!(parse_dfa("0:G,0,0"), Err(CompileError::MalformedSyntax { line: 0 }));
    assert_eq!(parse_dfa("0:g;0,0"), Err(CompileError::MalformedSyntax { line: 0 }));
    assert_eq!(parse_dfa("0:g,0"), Err(CompileError::MalformedSyntax { line: 0 }));
    assert_eq!(parse_dfa("0:g,0,"), Err(CompileError::MalformedSyntax { line: 0 }));
    assert_eq!(parse_dfa(":g,0,0"), Err(CompileError::MalformedSyntax { line: 0 }));
    assert_eq!(parse_dfa("a:g,0,0"), Err(CompileError::MalformedSyntax { line: 0 }));
    assert_eq!(parse_dfa("-1:g,0,0"), Err(CompileError::MalformedSyntax { line: 0 }));
    assert_eq!(parse_dfa("+1:g,0,0"), Err(CompileError::MalformedSyntax { line: 0 }));
    assert_eq!(parse_dfa("0:g,0,0\n0:g,0,x\n"), Err(CompileError::MalformedSyntax { line: 1 }));
    assert_eq!(parse_dfa("0:g,0,0,0"), Err(CompileError::MalformedSyntax { line: 0 }));
}

#[test]
fn whitespace_is_not_tolerated() {
    assert_eq!(parse_dfa(" 0:g,0,0"), Err(CompileError::MalformedSyntax { line: 0 }));
    assert_eq!(parse_dfa("0 :g,0,0"), Err(CompileError::MalformedSyntax { line: 0 }));
    assert_eq!(parse_dfa("0:g, 0,0"), Err(CompileError::MalformedSyntax { line: 0 }));
    assert_eq!(parse_dfa("0:g,0,0 \n"), Err(CompileError::MalformedSyntax { line: 0 }));
}

#[test]
fn blank_lines_are_malformed() {
    assert_eq!(parse_dfa("\n"), Err(CompileError::MalformedSyntax { line: 0 }));
    assert_eq!(parse_dfa("0:g,0,0\n\n"), Err(CompileError::MalformedSyntax { line: 1 }));
    assert_eq!(
        parse_dfa("0:g,0,0\n\n0:g,0,0\n"),
        Err(CompileError::MalformedSyntax { line: 1 })
    );
}

#[test]
fn text_after_the_states_is_malformed() {
    assert_eq!(parse_dfa("0:g,0,0\nend"), Err(CompileError::MalformedSyntax { line: 1 }));
    assert_eq!(parse_dfa("0:g,0,0end"), Err(CompileError::MalformedSyntax { line: 0 }));
}

#[test]
fn text_outside_ascii_is_malformed() {
    assert_eq!(parse_dfa("٠:g,0,0"), Err(CompileError::MalformedSyntax { line: 0 }));
    assert_eq!(parse_dfa("0:g,0,0\n１:g,0,0"), Err(CompileError::MalformedSyntax { line: 1 }));
    assert_eq!(parse_states(&[0x30, 0x3A, 0xFF]), Err(CompileError::MalformedSyntax { line: 0 }));
}

#[test]
fn empty_text_is_an_empty_source() {
    assert_eq!(parse_dfa(""), Err(CompileError::EmptySource));
    assert_eq!(parse_states(b""), Err(CompileError::EmptySource));
}

#[test]
fn undeclared_successor_is_unresolved() {
    assert_eq!(parse_dfa("0:g,1,0"), Err(CompileError::UnresolvedLabel));
    assert_eq!(parse_dfa("0:g,0,1"), Err(CompileError::UnresolvedLabel));
    assert_eq!(parse_dfa("0:g,0,0\n1:w,0,2\n"), Err(CompileError::UnresolvedLabel));
}

#[test]
fn malformed_syntax_is_found_before_unresolved_labels() {
    assert_eq!(parse_dfa("0:g,9,9\n1:w"), Err(CompileError::MalformedSyntax { line: 1 }));
}

#[test]
fn pack_resolves_labels_through_their_last_declaration() {
    let states = vec![
        declared(4, Action::Go, 4, 9),
        declared(9, Action::Wait, 4, 4),
        declared(4, Action::Wait, 9, 9),
    ];
    assert_eq!(
        pack(states),
        Ok(vec![
            compiled(Action::Go, 2, 1),
            compiled(Action::Wait, 2, 2),
            compiled(Action::Wait, 1, 1),
        ])
    );
}

#[test]
fn pack_refuses_an_undeclared_label() {
    assert_eq!(
        pack(vec![declared(1, Action::Go, 1, 2)]),
        Err(CompileError::UnresolvedLabel)
    );
    assert_eq!(
        pack(vec![declared(1, Action::Go, 3, 1), declared(2, Action::Go, 1, 1)]),
        Err(CompileError::UnresolvedLabel)
    );
}

#[test]
fn pack_of_no_states_is_empty() {
    assert_eq!(pack(Vec::new()), Ok(Vec::new()));
}

#[test]
fn compiling_twice_gives_the_same_automaton() {
    let text = "3:g,1,2\n1:w,2,3\n2:g,3,1\n";
    assert_eq!(parse_dfa(text), parse_dfa(text));
}

#[test]
fn well_formedness_is_decided() {
    assert!(is_well_formed(&vec![compiled(Action::Go, 0, 0)]));
    assert!(is_well_formed(&vec![compiled(Action::Go, 1, 0), compiled(Action::Wait, 1, 1)]));
    assert!(!is_well_formed(&Vec::new()));
    assert!(!is_well_formed(&vec![compiled(Action::Go, 1, 0)]));
    assert!(!is_well_formed(&vec![compiled(Action::Go, 0, 0), compiled(Action::Wait, 1, 2)]));
}
