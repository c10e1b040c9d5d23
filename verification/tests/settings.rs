use litephoton::argument_parser::Arguments;
use litephoton::environment::Environment;
use litephoton::input::Input;

fn arguments(method: &str) -> Arguments {
    Arguments {
        config: false,
        debug: true,
        bypass_stdin_check: false,
        stable: true,
        file: vec!["a.txt".to_string(), "b.txt".to_string()],
        keyword: "key".to_string(),
        method: method.to_string(),
    }
}

#[test]
fn lowercase_lowers_method_only() {
    let args = arguments("NoRmAl").lowercase();
    assert_eq!(args.method, "normal");
    assert_eq!(args.keyword, "key");
    assert_eq!(args.file, vec!["a.txt".to_string(), "b.txt".to_string()]);
    assert!(args.debug && args.stable && !args.config && !args.bypass_stdin_check);
}

#[test]
fn environment_copies_arguments() {
    let args = arguments("chunk");
    let env = Environment::get(&args);
    assert_eq!(env.file, args.file);
    assert_eq!(env.keyword, "key");
    assert_eq!(env.method, "chunk");
    assert!(env.debug && env.stable && !env.bypass_stdin_check);
}

#[test]
fn input_from_pipe_or_file() {
    let file = "data.txt".to_string();
    assert!(matches!(Input::select(false, false, &file), Input::Stdin(())));
    match Input::select(true, false, &file) {
        Input::File(path) => assert_eq!(path, "data.txt"),
        Input::Stdin(_) => panic!("expected the file"),
    }
    assert!(matches!(Input::select(false, true, &file), Input::File(_)));
}

#[test]
fn input_clone_keeps_path() {
    match Input::File("p".to_string()).clone() {
        Input::File(path) => assert_eq!(path, "p"),
        Input::Stdin(_) => panic!("expected the file"),
    }
    assert!(matches!(Input::Stdin(()).clone(), Input::Stdin(())));
}
