//! The command line.

use fermix_stt::args::{parse_args, Mode};

fn args(args: &[&str]) -> Vec<String> {
    args.iter().map(|arg| arg.to_string()).collect()
}

#[test]
fn no_arguments_mean_serve() {
    assert_eq!(parse_args(&args(&[])), Ok(Mode::Serve));
}

#[test]
fn the_version_can_be_asked_for() {
    assert_eq!(parse_args(&args(&["--version"])), Ok(Mode::Version));
    assert_eq!(parse_args(&args(&["-V"])), Ok(Mode::Version));
}

#[test]
fn anything_else_is_refused() {
    assert_eq!(
        parse_args(&args(&["--listen", "0.0.0.0:80"])),
        Err("unexpected arguments: --listen 0.0.0.0:80".to_string())
    );
    assert_eq!(
        parse_args(&args(&["--version", "-V"])),
        Err("unexpected arguments: --version -V".to_string())
    );
    assert_eq!(parse_args(&args(&[""])), Err("unexpected arguments: ".to_string()));
}
