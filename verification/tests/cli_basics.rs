use iaas_core::cli::run;

#[test]
fn test_help_flag() {
    let args = vec![String::from("program"), String::from("-h")];
    let output = run(&args);
    assert!(output.contains("Usage: cli-basics"));
    assert!(output.contains("Show this help message"));
}

#[test]
fn test_no_extra_args() {
    let args = vec![String::from("program")];
    let output = run(&args);
    assert!(output.contains("Received 1 arguments."));
    assert!(output.contains("No extra arguments provided."));
}

#[test]
fn test_with_args() {
    let args = vec![
        String::from("program"),
        String::from("arg1"),
        String::from("arg2"),
    ];
    let output = run(&args);
    assert!(output.contains("Received 3 arguments."));
    assert!(output.contains("1: arg1"));
    assert!(output.contains("2: arg2"));
}

#[test]
fn test_run_exact_listing() {
    let args = vec![String::from("p"), String::from("a")];
    let output = run(&args);
    assert_eq!(
        output,
        "Received 2 arguments.\nArguments exceeded 1. Here they are:\n0: p\n1: a"
    );
}
