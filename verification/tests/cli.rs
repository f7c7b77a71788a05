use potoroo::cli::{action_cost_name, json_escape, parse_args, parse_weight, Cli, Request};
use potoroo::params::{ActionCost, SearchAlgorithm, WEIGHT_ONE};

fn parse(args: &[&str]) -> Result<Request, String> {
    let args: Vec<String> = args.iter().map(|arg| (*arg).to_string()).collect();
    parse_args(&args)
}

fn cli(args: &[&str]) -> Cli {
    match parse(args).expect("arguments parse") {
        Request::Run(cli) => cli,
        _ => panic!("arguments do not request an early exit"),
    }
}

fn error(args: &[&str]) -> String {
    match parse(args) {
        Err(e) => e,
        Ok(_) => panic!("arguments are refused"),
    }
}

#[test]
fn literal_cli_uses_the_addr_static_profile() {
    let cli = cli(&[]);
    assert_eq!(cli.heuristic_name, "ADDR");
    assert_eq!(cli.flaw_order_names, ["STATIC"]);
    assert_eq!(cli.params.search_algorithm, SearchAlgorithm::A);
    assert_eq!(cli.params.action_cost, ActionCost::Task);
    assert_eq!(cli.params.weight as f32 / WEIGHT_ONE as f32, 1.0);
}

#[test]
fn fdr_cli_uses_add_unless_the_heuristic_is_explicit() {
    assert_eq!(cli(&["--fdr-pocl"]).heuristic_name, "ADD");
    assert_eq!(cli(&["--fdr-pocl", "-h", "ADDR"]).heuristic_name, "ADDR");
}

#[test]
fn options_take_their_values_in_every_form() {
    let c = cli(&["-aUNIT", "--search-algorithm=gbfs", "-w", "1.25", "--limit", "unlimited", "-g", "p.pddl", "-"]);
    assert_eq!(c.params.action_cost, ActionCost::Unit);
    assert_eq!(c.params.search_algorithm, SearchAlgorithm::Gbfs);
    assert_eq!(c.algorithm_name, "GBFS");
    assert_eq!(c.params.weight, 1_250_000_000);
    assert_eq!(c.params.search_limits, vec![usize::MAX]);
    assert!(c.params.ground_actions);
    assert_eq!(c.files, vec!["p.pddl".to_string(), "-".to_string()]);
}

#[test]
fn limits_are_padded_with_the_last() {
    let c = cli(&["-f", "UCPOP", "-f", "LCFR", "-f", "STATIC", "-l", "10", "-l", "20"]);
    assert_eq!(c.params.search_limits, vec![10, 20, 20]);
    assert_eq!(c.flaw_order_names, ["UCPOP", "LCFR", "STATIC"]);
    assert_eq!(c.params.flaw_orders.len(), 3);
}

#[test]
fn everything_behind_two_dashes_is_a_file() {
    let c = cli(&["-v", "--", "-v", "--help"]);
    assert_eq!(c.verbosity, 1);
    assert_eq!(c.files, vec!["-v".to_string(), "--help".to_string()]);
}

#[test]
fn verbosity_counts_or_is_set() {
    assert_eq!(cli(&["-v"]).verbosity, 1);
    assert_eq!(cli(&["-vvv"]).verbosity, 3);
    assert_eq!(cli(&["-v", "-vv"]).verbosity, 3);
    assert_eq!(cli(&["-v7"]).verbosity, 7);
    assert_eq!(cli(&["--verbose=2"]).verbosity, 2);
    assert_eq!(error(&["-vx"]), "invalid verbosity `x`");
}

#[test]
fn every_wrong_option_has_its_message() {
    assert_eq!(error(&["-z"]), "unknown option `-z`");
    assert_eq!(error(&["--zebra=1"]), "unknown option `--zebra`");
    assert_eq!(error(&["-a"]), "option -a requires an argument");
    assert_eq!(error(&["-a", "cheap"]), "invalid action cost `CHEAP`");
    assert_eq!(error(&["-s", "dfs"]), "invalid search algorithm `DFS`");
    assert_eq!(error(&["-l", "many"]), "invalid search limit `many`");
    assert_eq!(error(&["-w", "heavy"]), "invalid weight `heavy`");
    assert_eq!(error(&["-r"]), "-r (random open conditions) is not yet supported");
    assert_eq!(error(&["-h", "LMCUT"]), "LMCUT and LMCUTR require --fdr-pocl");
    assert_eq!(cli(&["-h", "LMCUT", "--fdr-pocl"]).heuristic_name, "LMCUT");
    assert!(error(&["-f", "nonsense"]).starts_with("invalid flaw selection order `"));
}

#[test]
fn help_and_version_come_first() {
    assert!(matches!(parse(&["-H", "-z"]), Ok(Request::Help)));
    assert!(matches!(parse(&["--version"]), Ok(Request::Version)));
}

#[test]
fn weights_are_read_in_billionths() {
    let read = |s: &str| parse_weight(&s.chars().collect());
    assert_eq!(read("1"), Some(WEIGHT_ONE));
    assert_eq!(read("+2.5"), Some(2_500_000_000));
    assert_eq!(read("-2.5"), Some(-2_500_000_000));
    assert_eq!(read("-0"), Some(0));
    assert_eq!(read(".0019"), Some(1_900_000));
    assert_eq!(read("0.0000000019"), Some(1));
    assert_eq!(read("3."), Some(3_000_000_000));
    assert_eq!(read("."), None);
    assert_eq!(read("-"), None);
    assert_eq!(read(""), None);
    assert_eq!(read("1.2.3"), None);
    assert_eq!(read("--1"), None);
    assert_eq!(read("4294967.296"), Some(4_294_967_296_000_000));
    assert_eq!(read("1e3"), Some(1_000_000_000_000));
    assert_eq!(read("1.25E+1"), Some(12_500_000_000));
    assert_eq!(read("1500e-3"), Some(1_500_000_000));
    assert_eq!(read("1e-999"), Some(0));
    assert_eq!(read("0e999"), Some(0));
    assert_eq!(read("1e999"), Some(i128::MAX));
    assert_eq!(read("-1e999"), Some(-i128::MAX));
    assert_eq!(read("170141183460469231731687303715.884105727"), Some(i128::MAX));
    assert_eq!(read("170141183460469231731687303715.884105726"), Some(i128::MAX - 1));
    assert_eq!(read("1e"), None);
    assert_eq!(read("e3"), None);
}

#[test]
fn weights_are_written_as_they_are_read() {
    let shown = |w: &str| {
        let text = cli(&["-w", w]).configuration();
        let at = text.find("weight ").unwrap() + 7;
        text[at..].split(' ').next().unwrap().to_string()
    };
    for w in ["0", "1", "-1", "2.5", "-0.25", "0.000000001", "10.050000001", "123456789"] {
        assert_eq!(shown(w), w);
    }
    assert_eq!(shown("1.500"), "1.5");
}

#[test]
fn the_configuration_reads_back_the_options() {
    let c = cli(&["-w", "1.5", "-f", "LCFR", "-f", "STATIC", "-l", "5"]);
    assert_eq!(
        c.configuration(),
        "Search: lifted POCL | A(ADDR) | flaws LCFR,STATIC | cost TASK | weight 1.5 | node limits 5,5"
    );
    assert_eq!(
        cli(&["--fdr-pocl"]).configuration(),
        "Search: finite-domain POCL | A(ADD) | flaws STATIC | cost TASK | weight 1 | node limit unlimited"
    );
}

#[test]
fn json_strings_are_escaped() {
    assert_eq!(json_escape("a\"b\\c\nd\te\rf"), "a\\\"b\\\\c\\nd\\te\\rf");
    assert_eq!(action_cost_name(ActionCost::Relative), "RELATIVE");
}
