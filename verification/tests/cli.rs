use clap::{Arg, ArgAction, ArgGroup, ArgMatches, Command};

use edgehop::cli::{Cli, Mode, ModeArgs};
use edgehop::config::Channel;

/// The command line as the app declares it.
fn command() -> Command {
    Command::new("edgehop")
        .version("0.1.0")
        .about("Switch Logitech Easy-Switch devices when the cursor hits a screen edge")
        .arg(
            Arg::new("watch")
                .long("watch")
                .action(ArgAction::SetTrue)
                .help("Watch the cursor and switch when it rests at a configured edge."),
        )
        .arg(
            Arg::new("list")
                .long("list")
                .action(ArgAction::SetTrue)
                .help("List the connected Logitech devices, as entries for the config."),
        )
        .arg(
            Arg::new("switch")
                .long("switch")
                .value_name("CHANNEL")
                .value_parser(|text: &str| Channel::parse(text))
                .help("Switch the configured devices to CHANNEL (1-3) once and exit."),
        )
        .group(
            ArgGroup::new("mode")
                .args(["watch", "list", "switch"])
                .required(true)
                .multiple(false),
        )
        .arg(
            Arg::new("verbose")
                .short('v')
                .long("verbose")
                .action(ArgAction::SetTrue)
                .help("Also log every step, not only switches and failures."),
        )
        .arg(
            Arg::new("config")
                .long("config")
                .value_name("PATH")
                .help("Config file to use."),
        )
}

fn cli(matches: &ArgMatches) -> Cli {
    Cli {
        mode: ModeArgs {
            watch: matches.get_flag("watch"),
            list: matches.get_flag("list"),
            switch: matches.get_one::<Channel>("switch").copied(),
        },
        verbose: matches.get_flag("verbose"),
        config: matches.get_one::<String>("config").cloned(),
    }
}

fn parse(args: &[&str]) -> Result<Cli, clap::Error> {
    command()
        .try_get_matches_from([&["edgehop"], args].concat())
        .map(|matches| cli(&matches))
}

#[test]
fn is_well_formed() {
    command().debug_assert();
}

#[test]
fn selects_the_mode() {
    assert_eq!(parse(&["--watch"]).unwrap().mode(), Mode::Watch);
    assert_eq!(parse(&["--list"]).unwrap().mode(), Mode::List);
    assert_eq!(
        parse(&["--switch", "2"]).unwrap().mode(),
        Mode::Switch(Channel::new(2).unwrap())
    );
}

#[test]
fn takes_options() {
    let cli = parse(&["--watch", "-v", "--config", "edgehop.toml"]).unwrap();
    assert!(cli.verbose);
    assert_eq!(cli.config, Some("edgehop.toml".to_string()));
    let cli = parse(&["--list"]).unwrap();
    assert!(!cli.verbose);
    assert_eq!(cli.config, None);
}

#[test]
fn needs_exactly_one_mode() {
    assert_eq!(
        parse(&[]).unwrap_err().kind(),
        clap::error::ErrorKind::MissingRequiredArgument
    );
    assert_eq!(
        parse(&["--watch", "--list"]).unwrap_err().kind(),
        clap::error::ErrorKind::ArgumentConflict
    );
}

#[test]
fn rejects_invalid_channels() {
    assert_eq!(
        parse(&["--switch", "4"]).unwrap_err().kind(),
        clap::error::ErrorKind::ValueValidation
    );
}

#[test]
fn prefers_switch_over_the_other_flags() {
    let cli = Cli {
        mode: ModeArgs {
            watch: true,
            list: true,
            switch: Some(Channel::new(1).unwrap()),
        },
        verbose: false,
        config: None,
    };
    assert_eq!(cli.mode(), Mode::Switch(Channel::new(1).unwrap()));
}
