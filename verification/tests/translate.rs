use bfcode::{compile, Bytecode, Comm, SyntaxFault};

fn program(source: &str) -> Vec<Comm> {
    compile(source.as_bytes().to_vec()).expect("the brackets balance")
}

fn fault(source: &str) -> SyntaxFault {
    compile(source.as_bytes().to_vec()).expect_err("the brackets do not balance")
}

#[test]
fn empty_source_is_empty_program() {
    assert_eq!(program(""), vec![]);
}

#[test]
fn moves_fold_into_the_next_offset() {
    assert_eq!(program(">>>+"), vec![Comm::Plus(3, 1)]);
    assert_eq!(program("+"), vec![Comm::Plus(0, 1)]);
    assert_eq!(program("<<-"), vec![Comm::Minus(-2, 1)]);
    assert_eq!(program(">><."), vec![Comm::Dot(1)]);
    assert_eq!(program("<,"), vec![Comm::Comma(-1)]);
}

#[test]
fn thousand_moves_make_one_instruction() {
    let mut source = vec![b'>'; 1000];
    source.push(b'+');
    assert_eq!(compile(source), Ok(vec![Comm::Plus(1000, 1)]));
}

#[test]
fn moves_alone_emit_nothing() {
    assert_eq!(program(">>><<"), vec![]);
}

#[test]
fn offset_stays_pending_behind_an_instruction() {
    assert_eq!(program(">+."), vec![Comm::Plus(1, 1), Comm::Dot(1)]);
    assert_eq!(
        program(">+>-<<,"),
        vec![Comm::Plus(1, 1), Comm::Minus(2, 1), Comm::Comma(0)]
    );
}

#[test]
fn runs_of_arithmetic_fold() {
    assert_eq!(program("+++++"), vec![Comm::Plus(0, 5)]);
    assert_eq!(program("---"), vec![Comm::Minus(0, 3)]);
    assert_eq!(
        program("++--+"),
        vec![Comm::Plus(0, 2), Comm::Minus(0, 2), Comm::Plus(0, 1)]
    );
}

#[test]
fn a_run_interrupted_by_a_comment_is_two_runs() {
    assert_eq!(program("++ ++"), vec![Comm::Plus(0, 2), Comm::Plus(0, 2)]);
}

#[test]
fn run_length_wraps_at_256() {
    assert_eq!(compile(vec![b'+'; 255]), Ok(vec![Comm::Plus(0, 255)]));
    assert_eq!(compile(vec![b'+'; 256]), Ok(vec![Comm::Plus(0, 0)]));
    assert_eq!(compile(vec![b'+'; 257]), Ok(vec![Comm::Plus(0, 1)]));
    assert_eq!(compile(vec![b'-'; 300]), Ok(vec![Comm::Minus(0, 44)]));
}

#[test]
fn other_bytes_are_comments() {
    assert_eq!(program("add one: + done"), vec![Comm::Plus(0, 1)]);
    assert_eq!(program("\n\t x"), vec![]);
    assert_eq!(compile(vec![0, 255, b'.', 128]), Ok(vec![Comm::Dot(0)]));
}

#[test]
fn clear_idiom_is_one_instruction() {
    assert_eq!(program("[-]"), vec![Comm::Clear(0)]);
    assert_eq!(program(">>[-]"), vec![Comm::Clear(2)]);
    assert_eq!(program("<[-]+"), vec![Comm::Clear(-1), Comm::Plus(-1, 1)]);
}

#[test]
fn clear_idiom_needs_its_three_bytes_in_a_row() {
    assert_eq!(
        program("[ -]"),
        vec![Comm::LP(2), Comm::Minus(0, 1), Comm::RP(0)]
    );
    assert_eq!(
        program("[--]"),
        vec![Comm::LP(2), Comm::Minus(0, 2), Comm::RP(0)]
    );
    assert_eq!(
        program(">>[ -]"),
        vec![Comm::Pointer(2), Comm::LP(3), Comm::Minus(0, 1), Comm::RP(1)]
    );
}

#[test]
fn clear_idiom_inside_a_loop() {
    assert_eq!(
        program("[[-]]"),
        vec![Comm::LP(2), Comm::Clear(0), Comm::RP(0)]
    );
}

#[test]
fn loop_targets_are_each_other() {
    assert_eq!(
        program("++++++++[>++++++++<-]>."),
        vec![
            Comm::Plus(0, 8),
            Comm::LP(4),
            Comm::Plus(1, 8),
            Comm::Minus(0, 1),
            Comm::RP(1),
            Comm::Dot(1),
        ]
    );
}

#[test]
fn pending_offset_is_committed_at_both_brackets() {
    assert_eq!(
        program(">[>+<<]>."),
        vec![
            Comm::Pointer(1),
            Comm::LP(4),
            Comm::Plus(1, 1),
            Comm::Pointer(-1),
            Comm::RP(1),
            Comm::Dot(1),
        ]
    );
}

#[test]
fn nested_loops_are_resolved() {
    assert_eq!(
        program("[[+][.]]"),
        vec![
            Comm::LP(7),
            Comm::LP(3),
            Comm::Plus(0, 1),
            Comm::RP(1),
            Comm::LP(6),
            Comm::Dot(0),
            Comm::RP(4),
            Comm::RP(0),
        ]
    );
}

#[test]
fn empty_loop() {
    assert_eq!(program("[]"), vec![Comm::LP(1), Comm::RP(0)]);
}

#[test]
fn every_jump_has_its_partner() {
    let code = program("+[>[-]++[>+<-]<[>>.<<-]]>[[<]>]");
    for (at, instruction) in code.iter().enumerate() {
        match *instruction {
            Comm::LP(target) => {
                assert!(at < target && target < code.len());
                assert_eq!(code[target], Comm::RP(at));
            }
            Comm::RP(target) => {
                assert!(target < at);
                assert_eq!(code[target], Comm::LP(at));
            }
            _ => {}
        }
    }
}

#[test]
fn open_loop_at_the_end_is_a_fault() {
    assert_eq!(fault("+["), SyntaxFault::Unclosed { pos: 1 });
    assert_eq!(fault("["), SyntaxFault::Unclosed { pos: 0 });
    assert_eq!(fault("[-"), SyntaxFault::Unclosed { pos: 0 });
    assert_eq!(fault("[+"), SyntaxFault::Unclosed { pos: 0 });
}

#[test]
fn innermost_open_loop_is_the_fault() {
    assert_eq!(fault("[+[+]"), SyntaxFault::Unclosed { pos: 0 });
    assert_eq!(fault("[+[+"), SyntaxFault::Unclosed { pos: 2 });
    assert_eq!(fault("[[-]"), SyntaxFault::Unclosed { pos: 0 });
}

#[test]
fn close_without_open_is_a_fault() {
    assert_eq!(fault("]"), SyntaxFault::Unmatched { pos: 0 });
    assert_eq!(fault("+]"), SyntaxFault::Unmatched { pos: 1 });
    assert_eq!(fault("[+]]"), SyntaxFault::Unmatched { pos: 3 });
    assert_eq!(fault("[-]]"), SyntaxFault::Unmatched { pos: 3 });
    assert_eq!(fault("]["), SyntaxFault::Unmatched { pos: 0 });
}

#[test]
fn read_chars_counts_the_run() {
    let mut bytecode = Bytecode::new(b"+++-".to_vec());
    assert_eq!(bytecode.read_chars('+'), 3);
    assert_eq!(bytecode.index, 2);
    assert!(bytecode.v.is_empty());
    assert_eq!(bytecode.chars, b"+++-".to_vec());
}

#[test]
fn read_chars_stops_with_the_source() {
    let mut bytecode = Bytecode::new(b"a>>".to_vec());
    bytecode.index = 1;
    assert_eq!(bytecode.read_chars('>'), 2);
    assert_eq!(bytecode.index, 2);
}

#[test]
fn read_chars_of_one() {
    let mut bytecode = Bytecode::new(b"<>".to_vec());
    assert_eq!(bytecode.read_chars('<'), 1);
    assert_eq!(bytecode.index, 0);
}

#[test]
fn to_bytecode_ends_with_the_source() {
    let mut bytecode = Bytecode::new(b">+[-].".to_vec());
    assert_eq!(bytecode.to_bytecode(0), Ok(()));
    assert_eq!(bytecode.index, 6);
    assert_eq!(
        bytecode.v,
        vec![Comm::Plus(1, 1), Comm::Clear(1), Comm::Dot(1)]
    );
    assert_eq!(bytecode.chars, b">+[-].".to_vec());
}

#[test]
fn to_bytecode_resolves_loops() {
    let mut bytecode = Bytecode::new(b"+[>[.]<-]".to_vec());
    assert_eq!(bytecode.to_bytecode(0), Ok(()));
    assert_eq!(bytecode.index, 9);
    assert_eq!(
        bytecode.v,
        vec![
            Comm::Plus(0, 1),
            Comm::LP(8),
            Comm::Pointer(1),
            Comm::LP(5),
            Comm::Dot(0),
            Comm::RP(3),
            Comm::Minus(-1, 1),
            Comm::Pointer(-1),
            Comm::RP(1),
        ]
    );
}

#[test]
fn to_bytecode_fails_on_a_lone_close() {
    let mut bytecode = Bytecode::new(b"]".to_vec());
    assert_eq!(
        bytecode.to_bytecode(0),
        Err(SyntaxFault::Unmatched { pos: 0 })
    );
    assert_eq!(bytecode.chars, b"]".to_vec());
}

#[test]
fn to_bytecode_fails_on_a_close_outside_every_loop() {
    let mut bytecode = Bytecode::new(b">+<]+".to_vec());
    assert_eq!(
        bytecode.to_bytecode(0),
        Err(SyntaxFault::Unmatched { pos: 3 })
    );
    let mut bytecode = Bytecode::new(b">>]".to_vec());
    assert_eq!(
        bytecode.to_bytecode(0),
        Err(SyntaxFault::Unmatched { pos: 2 })
    );
    let mut bytecode = Bytecode::new(b"[+]-[-]]".to_vec());
    assert_eq!(
        bytecode.to_bytecode(0),
        Err(SyntaxFault::Unmatched { pos: 7 })
    );
}

#[test]
fn to_bytecode_does_not_depend_on_init() {
    for init in [0, 1, 7, usize::MAX] {
        let mut bytecode = Bytecode::new(b"+[-]>[.<]".to_vec());
        assert_eq!(bytecode.to_bytecode(init), Ok(()));
        assert_eq!(
            bytecode.v,
            vec![
                Comm::Plus(0, 1),
                Comm::Clear(0),
                Comm::Pointer(1),
                Comm::LP(6),
                Comm::Dot(0),
                Comm::Pointer(-1),
                Comm::RP(3),
            ]
        );
        let mut bytecode = Bytecode::new(b"+]".to_vec());
        assert_eq!(
            bytecode.to_bytecode(init),
            Err(SyntaxFault::Unmatched { pos: 1 })
        );
    }
}

#[test]
fn to_bytecode_from_the_middle() {
    let mut bytecode = Bytecode::new(b"[[..".to_vec());
    bytecode.index = 2;
    assert_eq!(bytecode.to_bytecode(0), Ok(()));
    assert_eq!(bytecode.v, vec![Comm::Dot(0), Comm::Dot(0)]);
    assert_eq!(bytecode.index, 4);
}

#[test]
fn to_bytecode_appends_to_what_was_emitted() {
    let mut bytecode = Bytecode::new(b"[+]".to_vec());
    bytecode.v.push(Comm::Dot(0));
    bytecode.v.push(Comm::Dot(1));
    assert_eq!(bytecode.to_bytecode(0), Ok(()));
    assert_eq!(
        bytecode.v,
        vec![
            Comm::Dot(0),
            Comm::Dot(1),
            Comm::LP(4),
            Comm::Plus(0, 1),
            Comm::RP(2),
        ]
    );
}

#[test]
fn to_bytecode_fails_on_an_open_loop() {
    let mut bytecode = Bytecode::new(b"+[>".to_vec());
    assert_eq!(
        bytecode.to_bytecode(0),
        Err(SyntaxFault::Unclosed { pos: 1 })
    );
    assert_eq!(bytecode.chars, b"+[>".to_vec());
}

#[test]
fn to_bytecode_succeeds_exactly_on_balanced_brackets() {
    let balanced: [&[u8]; 8] = [
        b"", b"+", b"[]", b"[-]", b"[[]]", b"[][]", b"a[b[-]c]d[-]", b"[[-][-]]",
    ];
    for source in balanced {
        let mut bytecode = Bytecode::new(source.to_vec());
        assert!(bytecode.to_bytecode(0).is_ok());
    }
    let unbalanced: [&[u8]; 10] = [
        b"]", b"[", b"][", b"[]]", b"[[]", b"[-]]", b"[[-]", b"[-", b"-]", b"[]][",
    ];
    for source in unbalanced {
        let mut bytecode = Bytecode::new(source.to_vec());
        assert!(bytecode.to_bytecode(0).is_err());
        assert!(compile(source.to_vec()).is_err());
    }
}

#[test]
fn deep_nesting_is_no_burden() {
    let depth = 200_000;
    let mut source = vec![b'['; depth];
    source.extend(vec![b']'; depth]);
    let code = compile(source).unwrap();
    assert_eq!(code.len(), 2 * depth);
    assert_eq!(code[0], Comm::LP(2 * depth - 1));
    assert_eq!(code[2 * depth - 1], Comm::RP(0));
    assert_eq!(code[depth - 1], Comm::LP(depth));
    assert_eq!(code[depth], Comm::RP(depth - 1));
}

#[test]
fn deep_open_loops_are_a_fault() {
    let depth = 200_000;
    assert_eq!(
        compile(vec![b'['; depth]),
        Err(SyntaxFault::Unclosed { pos: depth - 1 })
    );
    let mut source = vec![b'['; depth];
    source.extend(vec![b']'; depth + 1]);
    assert_eq!(
        compile(source),
        Err(SyntaxFault::Unmatched { pos: 2 * depth })
    );
}
