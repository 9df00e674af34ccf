use rs_pipe::parse;
use rs_pipe::plan::{driver_actions, stage_actions, Action, PipeEnds};

fn close(fd: i32) -> Action {
    Action::CloseFd { fd }
}

fn run(argv: &[&str]) -> Action {
    Action::RunProgram {
        argv: argv.iter().map(|s| String::from(*s)).collect(),
    }
}

#[test]
fn three_stage_pipeline_wires_both_neighbours() {
    let stages = parse("a | b | c");
    let pipes = vec![
        PipeEnds { read_fd: 3, write_fd: 4 },
        PipeEnds { read_fd: 5, write_fd: 6 },
    ];
    let all_closes = || vec![close(3), close(4), close(5), close(6)];

    let mut expected0 = vec![Action::UseAsStdout { fd: 4 }];
    expected0.extend(all_closes());
    expected0.push(run(&["a"]));
    assert_eq!(stage_actions(&stages, &pipes, 0), expected0);

    let mut expected1 = vec![Action::UseAsStdin { fd: 3 }, Action::UseAsStdout { fd: 6 }];
    expected1.extend(all_closes());
    expected1.push(run(&["b"]));
    assert_eq!(stage_actions(&stages, &pipes, 1), expected1);

    let mut expected2 = vec![Action::UseAsStdin { fd: 5 }];
    expected2.extend(all_closes());
    expected2.push(run(&["c"]));
    assert_eq!(stage_actions(&stages, &pipes, 2), expected2);
}

#[test]
fn driver_closes_every_pipe_end() {
    let pipes = vec![
        PipeEnds { read_fd: 3, write_fd: 4 },
        PipeEnds { read_fd: 5, write_fd: 6 },
    ];
    assert_eq!(
        driver_actions(&pipes),
        vec![close(3), close(4), close(5), close(6)]
    );
    assert_eq!(driver_actions(&Vec::new()), Vec::<Action>::new());
}

#[test]
fn single_stage_redirections_come_before_the_program() {
    let stages = parse("cmd <in >out");
    let pipes: Vec<PipeEnds> = Vec::new();
    assert_eq!(
        stage_actions(&stages, &pipes, 0),
        vec![
            Action::RedirectStdin { path: String::from("in") },
            Action::RedirectStdout { path: String::from("out") },
            run(&["cmd"]),
        ]
    );
}

#[test]
fn explicit_output_redirect_overrides_the_pipe() {
    // The stage writes into a pipe, but its own `>file` redirection is
    // applied later in the plan, so the file wins.
    let stages = parse("a > f | b");
    let pipes = vec![PipeEnds { read_fd: 3, write_fd: 4 }];
    let actions = stage_actions(&stages, &pipes, 0);
    assert_eq!(
        actions,
        vec![
            Action::UseAsStdout { fd: 4 },
            close(3),
            close(4),
            Action::RedirectStdout { path: String::from("f") },
            run(&["a"]),
        ]
    );
}

#[test]
fn empty_argv_stage_only_tidies_descriptors() {
    let stages = parse(">out");
    let pipes: Vec<PipeEnds> = Vec::new();
    assert_eq!(stage_actions(&stages, &pipes, 0), Vec::<Action>::new());
}
