use bfcode::{compile, interpreter, Fault, Status};

/// What a source text comes to when it is read byte by byte.
#[derive(Debug, PartialEq)]
struct Plain {
    cells: Vec<u8>,
    output: Vec<u8>,
    taken: usize,
    fault: Option<Fault>,
}

fn closing(source: &[u8], open: usize) -> usize {
    let mut depth = 0;
    let mut at = open + 1;
    loop {
        match source[at] {
            b'[' => depth += 1,
            b']' if depth == 0 => return at,
            b']' => depth -= 1,
            _ => {}
        }
        at += 1;
    }
}

fn opening(source: &[u8], close: usize) -> usize {
    let mut depth = 0;
    let mut at = close - 1;
    loop {
        match source[at] {
            b']' => depth += 1,
            b'[' if depth == 0 => return at,
            b'[' => depth -= 1,
            _ => {}
        }
        at -= 1;
    }
}

fn read_plainly(source: &[u8], input: &[u8]) -> Plain {
    let mut plain = Plain {
        cells: vec![0; 65535],
        output: vec![],
        taken: 0,
        fault: None,
    };
    let mut index: i64 = 0;
    let mut pos = 0;
    while pos < source.len() {
        let byte = source[pos];
        let on_tape = 0 <= index && index < 65535;
        if b"+-.,[]".contains(&byte) && !on_tape {
            plain.fault = Some(Fault::Bounds);
            return plain;
        }
        let at = index as usize;
        match byte {
            b'>' => index += 1,
            b'<' => index -= 1,
            b'+' => plain.cells[at] = plain.cells[at].wrapping_add(1),
            b'-' => plain.cells[at] = plain.cells[at].wrapping_sub(1),
            b'.' => plain.output.push(plain.cells[at]),
            b',' => {
                if plain.taken == input.len() {
                    plain.fault = Some(Fault::InputExhausted);
                    return plain;
                }
                plain.cells[at] = input[plain.taken];
                plain.taken += 1;
            }
            b'[' if plain.cells[at] == 0 => pos = closing(source, pos),
            b']' if plain.cells[at] != 0 => pos = opening(source, pos),
            _ => {}
        }
        pos += 1;
    }
    plain
}

fn run_program(source: &[u8], input: &[u8]) -> Plain {
    let code = compile(source.to_vec()).expect("the brackets balance");
    let run = interpreter(&code, &input.to_vec(), 10_000_000);
    let cells = (0..65535).map(|at| run.machine.cell(at).unwrap()).collect();
    let fault = match run.status {
        Status::Halted => None,
        Status::Faulted(fault) => Some(fault),
        Status::Unfinished => panic!("the run did not end"),
    };
    Plain {
        cells,
        output: run.output,
        taken: run.taken,
        fault,
    }
}

fn agree(source: &str, input: &[u8]) {
    assert_eq!(
        run_program(source.as_bytes(), input),
        read_plainly(source.as_bytes(), input),
        "{}",
        source
    );
}

#[test]
fn program_does_what_the_text_does() {
    agree("", &[]);
    agree("+++.>++.<-.", &[]);
    agree("++++++++[>++++++++<-]>.", &[]);
    agree(">>+<<[-]>>[-]<+[ -]", &[]);
    agree(",[.,]", &[3, 2, 1, 0]);
    agree(">,[>,]<[.<]", &[1, 2, 3, 0]);
    agree("++[>+++[>++++<-]<-]>>.", &[]);
    agree(
        "++++++++[>++++[>++>+++>+++>+<<<<-]>+>+>->>+[<]<-]>>.>---.+++++++..+++.",
        &[],
    );
    agree("-[-[-]+.>,]", &[0, 5]);
    agree(">>>[-]<<<+>>>[ - ]", &[]);
}

#[test]
fn program_wraps_as_the_text_does() {
    let mut source = "+".repeat(300);
    source.push_str(".>");
    source.push_str(&"-".repeat(600));
    source.push_str(".[-].");
    agree(&source, &[]);
    agree(",[-]+[-].", &[255]);
    agree(",-[+].", &[0]);
}

#[test]
fn program_faults_as_the_text_does() {
    agree("<+", &[]);
    agree("+.<.", &[]);
    agree("+<<>[-]", &[]);
    agree("<[-]", &[]);
    agree("<[+]", &[]);
    agree("+[<]", &[]);
    agree(",.,.", &[7]);
    agree("<,", &[]);
    agree("+[>+]", &[]);
    agree("<<<>>>+.", &[]);
}
