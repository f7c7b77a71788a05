//! Command-line options.
use vstd::prelude::*;

use crate::heuristics::{expanded, order_of, static_tiers, terms_of, FlawSelectionOrder, HVal, Heuristic, SelectionCriterion};
use crate::names::spellings;
use crate::numerals::{bounded, parse_scaled, push_scaled, scaled_of, scaled_text};
use crate::params::{ActionCost, Parameters, SearchAlgorithm, WEIGHT_ONE};
use crate::text::{
    bounded_value, chars_of, decimal, find_char, find_from, lower, lower_case, parse_usize, push_number, slice_of, spells, split, string_of, upper,
    upper_case,
};

verus! {

/// Parsed command-line configuration.
#[derive(Debug)]
pub struct Cli {
    pub params: Parameters,
    /// Selects ground POCL over the multi-valued SAS+ task. Search algorithms,
    /// heuristics, flaw orders, weights, and limits still come from `params`.
    pub fdr_pocl: bool,
    pub verbosity: u32,
    pub files: Vec<String>,
    /// Effective flaw-order names, retained for readable telemetry.
    pub flaw_order_names: Vec<String>,
    /// Effective `-h` value (default `ADDR`, or `ADD` with `--fdr-pocl`).
    pub heuristic_name: String,
    /// The `-s` value in upper case (default `A`).
    pub algorithm_name: String,
}

/// What the command line asks for.
#[derive(Debug)]
pub enum Request {
    Help,
    Version,
    Run(Cli),
}

/// The options read so far.
#[verifier::ext_equal]
pub struct Settings {
    pub algorithm: SearchAlgorithm,
    pub algorithm_name: Seq<char>,
    pub cost: ActionCost,
    pub weight: i128,
    pub ground: bool,
    pub fdr: bool,
    pub verbosity: u32,
    /// An explicit heuristic, by name.
    pub heuristic: Option<Seq<char>>,
    pub ranking: Seq<HVal>,
    /// Explicit flaw orders, by name.
    pub orders: Seq<Seq<char>>,
    pub tiers: Seq<Seq<SelectionCriterion>>,
    pub limits: Seq<usize>,
    pub files: Seq<Seq<char>>,
}

/// The defaults.
pub open spec fn first_settings() -> Settings {
    Settings {
        algorithm: SearchAlgorithm::A,
        algorithm_name: "A"@,
        cost: ActionCost::Task,
        weight: WEIGHT_ONE,
        ground: false,
        fdr: false,
        verbosity: 0,
        heuristic: None,
        ranking: seq![HVal::Addr],
        orders: seq![],
        tiers: seq![],
        limits: seq![],
        files: seq![],
    }
}

/// The letter of a long option.
pub open spec fn letter_of(name: Seq<char>) -> Option<char> {
    if name == "action-cost"@ {
        Some('a')
    } else if name == "domain-constraints"@ {
        Some('d')
    } else if name == "flaw-order"@ {
        Some('f')
    } else if name == "fdr-pocl"@ {
        Some('P')
    } else if name == "ground-actions"@ {
        Some('g')
    } else if name == "heuristic"@ {
        Some('h')
    } else if name == "help"@ {
        Some('H')
    } else if name == "limit"@ {
        Some('l')
    } else if name == "random-open-conditions"@ {
        Some('r')
    } else if name == "seed"@ {
        Some('S')
    } else if name == "search-algorithm"@ {
        Some('s')
    } else if name == "time-limit"@ {
        Some('T')
    } else if name == "tolerance"@ {
        Some('t')
    } else if name == "verbose"@ {
        Some('v')
    } else if name == "version"@ {
        Some('V')
    } else if name == "warnings"@ {
        Some('W')
    } else if name == "weight"@ {
        Some('w')
    } else {
        None
    }
}

/// The letter of an option and the value attached to it: `--long`, `--long=VALUE`,
/// `-x` or `-xVALUE`.
pub open spec fn option_in(arg: Seq<char>) -> Result<(char, Option<Seq<char>>), Seq<char>> {
    if arg[1] == '-' {
        let long = arg.skip(2);
        let k = find_char(long, '=');
        let name = long.take(k);
        match letter_of(name) {
            Some(c) => Ok(
                (
                    c,
                    if k < long.len() {
                        Some(long.skip(k + 1))
                    } else {
                        None
                    },
                ),
            ),
            None => Err("unknown option `--"@ + name + "`"@),
        }
    } else {
        Ok(
            (
                arg[1],
                if arg.len() > 2 {
                    Some(arg.skip(2))
                } else {
                    None
                },
            ),
        )
    }
}

/// Whether an option needs a value.
pub open spec fn takes_value(c: char) -> bool {
    c == 'a' || c == 'f' || c == 'h' || c == 'l' || c == 'S' || c == 's' || c == 'T' || c == 't' || c == 'w'
}

/// The action cost model of a name.
pub open spec fn cost_named(name: Seq<char>) -> Option<ActionCost> {
    if name == "TASK"@ || name == "PDDL"@ {
        Some(ActionCost::Task)
    } else if name == "UNIT"@ {
        Some(ActionCost::Unit)
    } else if name == "DURATION"@ {
        Some(ActionCost::Duration)
    } else if name == "RELATIVE"@ {
        Some(ActionCost::Relative)
    } else {
        None
    }
}

/// The search algorithm of a name.
pub open spec fn algorithm_named(name: Seq<char>) -> Option<SearchAlgorithm> {
    if name == "A"@ {
        Some(SearchAlgorithm::A)
    } else if name == "IDA"@ {
        Some(SearchAlgorithm::Ida)
    } else if name == "HC"@ {
        Some(SearchAlgorithm::Hc)
    } else if name == "BFS"@ {
        Some(SearchAlgorithm::Bfs)
    } else if name == "GBFS"@ {
        Some(SearchAlgorithm::Gbfs)
    } else if name == "LGBFS"@ {
        Some(SearchAlgorithm::LazyGbfs)
    } else if name == "LGBFS-D"@ {
        Some(SearchAlgorithm::LazyGbfsDual)
    } else if name == "ALT"@ {
        Some(SearchAlgorithm::Alt)
    } else {
        None
    }
}

/// The search limit of a text: a number or `unlimited`.
pub open spec fn limit_of(s: Seq<char>) -> Option<usize> {
    if lower(s) == "unlimited"@ {
        Some(usize::MAX)
    } else {
        match bounded_value(s, usize::MAX as nat) {
            Some(n) => Some(n as usize),
            None => None,
        }
    }
}

/// The weight of a text, in billionths. Values beyond the
/// range count as the last one in it.
pub open spec fn weight_of(s: Seq<char>) -> Option<i128> {
    match scaled_of(s) {
        Some(n) => Some(bounded(n)),
        None => None,
    }
}

/// The settings with an option that has a value. The seed, the time limit and the
/// tolerance are accepted and not acted upon.
pub open spec fn with_value(s: Settings, c: char, v: Seq<char>) -> Result<Settings, Seq<char>> {
    if c == 'a' {
        match cost_named(upper(v)) {
            Some(cost) => Ok(Settings { cost, ..s }),
            None => Err("invalid action cost `"@ + upper(v) + "`"@),
        }
    } else if c == 'f' {
        match order_of(expanded(v)) {
            Some(criteria) => Ok(Settings { orders: s.orders.push(v), tiers: s.tiers.push(criteria), ..s }),
            None => Err("invalid flaw selection order `"@ + expanded(v) + "'"@),
        }
    } else if c == 'h' {
        match terms_of(split(v, '/'), Seq::empty()) {
            Ok(ranking) => Ok(Settings { heuristic: Some(v), ranking, ..s }),
            Err(e) => Err(e),
        }
    } else if c == 'l' {
        match limit_of(v) {
            Some(n) => Ok(Settings { limits: s.limits.push(n), ..s }),
            None => Err("invalid search limit `"@ + v + "`"@),
        }
    } else if c == 's' {
        match algorithm_named(upper(v)) {
            Some(algorithm) => Ok(Settings { algorithm, algorithm_name: upper(v), ..s }),
            None => Err("invalid search algorithm `"@ + upper(v) + "`"@),
        }
    } else if c == 'w' {
        match weight_of(v) {
            Some(weight) => Ok(Settings { weight, ..s }),
            None => Err("invalid weight `"@ + v + "`"@),
        }
    } else {
        Ok(s)
    }
}

/// Whether a text consists of the letter `v`.
pub open spec fn all_vs(s: Seq<char>) -> bool {
    forall|i: int| 0 <= i < s.len() ==> #[trigger] s[i] == 'v'
}

/// A sum, as far as it can be counted.
pub open spec fn counted_sum(a: u32, b: nat) -> u32 {
    if a + b <= u32::MAX {
        (a + b) as u32
    } else {
        u32::MAX
    }
}

/// The verbosity with one more `-v`: counted, or set by a number.
pub open spec fn verbosity_with(old: u32, value: Option<Seq<char>>) -> Option<u32> {
    match value {
        None => Some(counted_sum(old, 1)),
        Some(v) => if all_vs(v) {
            Some(counted_sum(old, 1 + v.len()))
        } else {
            match bounded_value(v, u32::MAX as nat) {
                Some(n) => Some(n as u32),
                None => None,
            }
        },
    }
}

/// What the options lead to.
pub enum Verdict {
    Go(Settings),
    Help,
    Version,
    Bad(Seq<char>),
}

/// What an option without a required value leads to. Domain constraints and warnings
/// are accepted and not acted upon.
pub open spec fn with_switch(s: Settings, c: char, value: Option<Seq<char>>) -> Verdict {
    if c == 'd' || c == 'W' {
        Verdict::Go(s)
    } else if c == 'P' {
        Verdict::Go(Settings { fdr: true, ..s })
    } else if c == 'g' {
        Verdict::Go(Settings { ground: true, ..s })
    } else if c == 'H' {
        Verdict::Help
    } else if c == 'V' {
        Verdict::Version
    } else if c == 'r' {
        Verdict::Bad("-r (random open conditions) is not yet supported"@)
    } else if c == 'v' {
        match verbosity_with(s.verbosity, value) {
            Some(verbosity) => Verdict::Go(Settings { verbosity, ..s }),
            None => Verdict::Bad("invalid verbosity `"@ + value->0 + "`"@),
        }
    } else {
        Verdict::Bad(("unknown option `-"@).push(c) + "`"@)
    }
}

/// Whether an argument is a file: it does not begin with `-`, or is `-` itself.
pub open spec fn is_file(arg: Seq<char>) -> bool {
    arg.len() == 0 || arg[0] != '-' || arg.len() == 1
}

/// What the arguments from number `i` on lead to. After `--` everything is a file.
pub open spec fn scanned(args: Seq<Seq<char>>, i: nat, only_files: bool, s: Settings) -> Verdict
    decreases args.len() - i,
{
    if i >= args.len() {
        Verdict::Go(s)
    } else {
        let arg = args[i as int];
        if only_files || is_file(arg) {
            scanned(args, i + 1, only_files, Settings { files: s.files.push(arg), ..s })
        } else if arg == "--"@ {
            scanned(args, i + 1, true, s)
        } else {
            match option_in(arg) {
                Err(e) => Verdict::Bad(e),
                Ok((c, value)) => if takes_value(c) {
                    match value {
                        Some(v) => match with_value(s, c, v) {
                            Err(e) => Verdict::Bad(e),
                            Ok(s1) => scanned(args, i + 1, only_files, s1),
                        },
                        None => if i + 1 < args.len() {
                            match with_value(s, c, args[(i + 1) as int]) {
                                Err(e) => Verdict::Bad(e),
                                Ok(s1) => scanned(args, i + 2, only_files, s1),
                            }
                        } else {
                            Verdict::Bad(("option -"@).push(c) + " requires an argument"@)
                        },
                    }
                } else {
                    match with_switch(s, c, value) {
                        Verdict::Go(s1) => scanned(args, i + 1, only_files, s1),
                        v => v,
                    }
                },
            }
        }
    }
}

/// The name of the heuristic in effect. Reuse-aware `ADDR` creates deep plateaus on
/// the finite-domain representation, where plain `ADD` is the default.
pub open spec fn heuristic_name_of(s: Settings) -> Seq<char> {
    match s.heuristic {
        Some(name) => name,
        None => if s.fdr {
            "ADD"@
        } else {
            "ADDR"@
        },
    }
}

/// The ranking in effect.
pub open spec fn ranking_of(s: Settings) -> Seq<HVal> {
    if s.heuristic is None && s.fdr {
        seq![HVal::Add]
    } else {
        s.ranking
    }
}

/// The flaw orders in effect.
pub open spec fn tiers_of(s: Settings) -> Seq<Seq<SelectionCriterion>> {
    if s.tiers.len() > 0 {
        s.tiers
    } else {
        seq![static_tiers()]
    }
}

/// The names of the flaw orders in effect.
pub open spec fn order_names_of(s: Settings) -> Seq<Seq<char>> {
    if s.tiers.len() > 0 {
        s.orders
    } else {
        seq!["STATIC"@]
    }
}

/// The search limits in effect: one per flaw order, padded with the last.
pub open spec fn padded(limits: Seq<usize>, n: nat) -> Seq<usize> {
    if limits.len() >= n {
        limits
    } else {
        Seq::new(
            n,
            |i: int|
                if i < limits.len() {
                    limits[i]
                } else {
                    limits.last()
                },
        )
    }
}

/// The search limits in effect.
pub open spec fn limits_of(s: Settings) -> Seq<usize> {
    let given = if s.limits.len() > 0 {
        s.limits
    } else {
        seq![usize::MAX]
    };
    padded(given, tiers_of(s).len())
}

/// Whether some term is defined for finite-domain plans only.
pub open spec fn needs_fdr(terms: Seq<HVal>) -> bool {
    exists|i: int| 0 <= i < terms.len() && (#[trigger] terms[i]).fdr_only()
}

/// The criteria of a list of flaw orders.
pub open spec fn all_tiers(orders: Seq<FlawSelectionOrder>) -> Seq<Seq<SelectionCriterion>> {
    Seq::new(orders.len(), |i: int| orders[i].tiers())
}

impl Cli {
    /// Whether this configuration is what the settings ask for.
    pub open spec fn follows(&self, s: Settings) -> bool {
        &&& self.params.search_algorithm == s.algorithm
        &&& self.params.heuristic.ranking() == ranking_of(s)
        &&& self.params.action_cost == s.cost
        &&& self.params.weight == s.weight
        &&& all_tiers(self.params.flaw_orders@) == tiers_of(s)
        &&& self.params.search_limits@ == limits_of(s)
        &&& self.params.ground_actions == s.ground
        &&& self.fdr_pocl == s.fdr
        &&& self.verbosity == s.verbosity
        &&& spellings(self.files@) == s.files
        &&& spellings(self.flaw_order_names@) == order_names_of(s)
        &&& self.heuristic_name@ == heuristic_name_of(s)
        &&& self.algorithm_name@ == s.algorithm_name
    }
}

/// Whether a result is what the arguments lead to.
pub open spec fn is_parsed(args: Seq<Seq<char>>, res: Result<Request, String>) -> bool {
    match (scanned(args, 0, false, first_settings()), res) {
        (Verdict::Bad(e), Err(m)) => m@ == e,
        (Verdict::Help, Ok(Request::Help)) => true,
        (Verdict::Version, Ok(Request::Version)) => true,
        (Verdict::Go(s), Ok(Request::Run(cli))) => cli.follows(s) && (s.fdr || !needs_fdr(ranking_of(s))),
        (Verdict::Go(s), Err(m)) => !s.fdr && needs_fdr(ranking_of(s)) && m@ == "LMCUT and LMCUTR require --fdr-pocl"@,
        _ => false,
    }
}

/// The options read so far.
struct Reading {
    algorithm: SearchAlgorithm,
    algorithm_name: String,
    cost: ActionCost,
    weight: i128,
    ground: bool,
    fdr: bool,
    verbosity: u32,
    explicit: Option<String>,
    heuristic: Heuristic,
    orders: Vec<String>,
    flaw_orders: Vec<FlawSelectionOrder>,
    limits: Vec<usize>,
    files: Vec<String>,
}

impl Reading {
    spec fn view(&self) -> Settings {
        Settings {
            algorithm: self.algorithm,
            algorithm_name: self.algorithm_name@,
            cost: self.cost,
            weight: self.weight,
            ground: self.ground,
            fdr: self.fdr,
            verbosity: self.verbosity,
            heuristic: match self.explicit {
                Some(name) => Some(name@),
                None => None,
            },
            ranking: self.heuristic.ranking(),
            orders: spellings(self.orders@),
            tiers: all_tiers(self.flaw_orders@),
            limits: self.limits@,
            files: spellings(self.files@),
        }
    }

    fn new() -> (res: Reading)
        ensures
            res@ == first_settings(),
    {
        let res = Reading {
            algorithm: SearchAlgorithm::A,
            algorithm_name: "A".to_string(),
            cost: ActionCost::Task,
            weight: WEIGHT_ONE,
            ground: false,
            fdr: false,
            verbosity: 0,
            explicit: None,
            heuristic: Heuristic::of_term(HVal::Addr),
            orders: Vec::new(),
            flaw_orders: Vec::new(),
            limits: Vec::new(),
            files: Vec::new(),
        };
        assert(res@ =~= first_settings());
        res
    }

    fn add_file(&mut self, name: &str)
        ensures
            final(self)@ == (Settings { files: old(self)@.files.push(name@), ..old(self)@ }),
    {
        let ghost before = self@;
        self.files.push(name.to_string());
        assert(spellings(self.files@) =~= before.files.push(name@));
    }

    /// Reads an option that has a value.
    fn take_value(&mut self, c: char, v: &Vec<char>) -> (res: Result<(), String>)
        ensures
            match (with_value(old(self)@, c, v@), res) {
                (Ok(s), Ok(_)) => final(self)@ == s,
                (Err(e), Err(m)) => m@ == e,
                _ => false,
            },
    {
        let ghost before = self@;
        if c == 'a' {
            let name = upper_case(v);
            match parse_action_cost(&name) {
                Some(cost) => {
                    self.cost = cost;
                    Ok(())
                },
                None => Err(quoted("invalid action cost `", &name)),
            }
        } else if c == 'f' {
            let name = string_of(v);
            match FlawSelectionOrder::parse(name.as_str()) {
                Ok(order) => {
                    let ghost tiers = order.tiers();
                    self.orders.push(name);
                    self.flaw_orders.push(order);
                    proof {
                        assert(spellings(self.orders@) =~= before.orders.push(v@));
                        assert(all_tiers(self.flaw_orders@) =~= before.tiers.push(tiers));
                    }
                    Ok(())
                },
                Err(e) => Err(e),
            }
        } else if c == 'h' {
            let name = string_of(v);
            match Heuristic::parse(name.as_str()) {
                Ok(h) => {
                    self.heuristic = h;
                    self.explicit = Some(name);
                    Ok(())
                },
                Err(e) => Err(e),
            }
        } else if c == 'l' {
            match parse_limit(v) {
                Some(n) => {
                    self.limits.push(n);
                    Ok(())
                },
                None => Err(quoted("invalid search limit `", v)),
            }
        } else if c == 's' {
            let name = upper_case(v);
            match parse_search_algorithm(&name) {
                Some(algorithm) => {
                    self.algorithm = algorithm;
                    self.algorithm_name = string_of(&name);
                    Ok(())
                },
                None => Err(quoted("invalid search algorithm `", &name)),
            }
        } else if c == 'w' {
            match parse_weight(v) {
                Some(weight) => {
                    self.weight = weight;
                    Ok(())
                },
                None => Err(quoted("invalid weight `", v)),
            }
        } else {
            Ok(())
        }
    }

    /// What the settings amount to.
    fn finish(self) -> (res: Result<Request, String>)
        ensures
            match res {
                Ok(Request::Run(cli)) => cli.follows(self@) && (self@.fdr || !needs_fdr(ranking_of(self@))),
                Err(m) => !self@.fdr && needs_fdr(ranking_of(self@)) && m@ == "LMCUT and LMCUTR require --fdr-pocl"@,
                _ => false,
            },
    {
        let ghost s = self@;
        let mut heuristic = self.heuristic;
        let heuristic_name = match self.explicit {
            Some(name) => name,
            None => {
                if self.fdr {
                    heuristic = Heuristic::of_term(HVal::Add);
                    "ADD".to_string()
                } else {
                    "ADDR".to_string()
                }
            },
        };
        let mut names = self.orders;
        let mut flaw_orders = self.flaw_orders;
        if flaw_orders.len() == 0 {
            flaw_orders = Vec::new();
            flaw_orders.push(FlawSelectionOrder::by_static());
            names = Vec::new();
            names.push("STATIC".to_string());
            assert(all_tiers(flaw_orders@) =~= seq![static_tiers()]);
            assert(spellings(names@) =~= seq!["STATIC"@]);
        }
        let mut limits = self.limits;
        if limits.len() == 0 {
            limits = Vec::new();
            limits.push(usize::MAX);
            assert(limits@ =~= seq![usize::MAX]);
        }
        let ghost given = limits@;
        let n = flaw_orders.len();
        let last = limits[limits.len() - 1];
        while limits.len() < n
            invariant
                given.len() > 0,
                last == given.last(),
                limits@.len() >= given.len(),
                forall|i: int|
                    0 <= i < limits@.len() ==> (#[trigger] limits@[i]) == (if i < given.len() {
                        given[i]
                    } else {
                        last
                    }),
                limits@.len() <= n || limits@.len() == given.len(),
            decreases n - limits@.len(),
        {
            limits.push(last);
        }
        assert(limits@ =~= padded(given, n as nat));
        if !self.fdr && heuristic.requires_fdr_pocl() {
            return Err("LMCUT and LMCUTR require --fdr-pocl".to_string());
        }
        Ok(
            Request::Run(
                Cli {
                    params: Parameters {
                        search_algorithm: self.algorithm,
                        heuristic,
                        action_cost: self.cost,
                        weight: self.weight,
                        flaw_orders,
                        search_limits: limits,
                        ground_actions: self.ground,
                    },
                    fdr_pocl: self.fdr,
                    verbosity: self.verbosity,
                    files: self.files,
                    flaw_order_names: names,
                    heuristic_name,
                    algorithm_name: self.algorithm_name,
                },
            ),
        )
    }
}

fn quoted(head: &str, v: &Vec<char>) -> (res: String)
    ensures
        res@ == head@ + v@ + "`"@,
{
    let mut res = head.to_string();
    let text = string_of(v);
    res.append(text.as_str());
    res.append("`");
    res
}

/// Maps a long option name to its short letter.
fn long_to_short(name: &Vec<char>) -> (res: Option<char>)
    ensures
        res == letter_of(name@),
{
    if spells(name, "action-cost") {
        Some('a')
    } else if spells(name, "domain-constraints") {
        Some('d')
    } else if spells(name, "flaw-order") {
        Some('f')
    } else if spells(name, "fdr-pocl") {
        Some('P')
    } else if spells(name, "ground-actions") {
        Some('g')
    } else if spells(name, "heuristic") {
        Some('h')
    } else if spells(name, "help") {
        Some('H')
    } else if spells(name, "limit") {
        Some('l')
    } else if spells(name, "random-open-conditions") {
        Some('r')
    } else if spells(name, "seed") {
        Some('S')
    } else if spells(name, "search-algorithm") {
        Some('s')
    } else if spells(name, "time-limit") {
        Some('T')
    } else if spells(name, "tolerance") {
        Some('t')
    } else if spells(name, "verbose") {
        Some('v')
    } else if spells(name, "version") {
        Some('V')
    } else if spells(name, "warnings") {
        Some('W')
    } else if spells(name, "weight") {
        Some('w')
    } else {
        None
    }
}

fn parse_action_cost(name: &Vec<char>) -> (res: Option<ActionCost>)
    ensures
        res == cost_named(name@),
{
    if spells(name, "TASK") || spells(name, "PDDL") {
        Some(ActionCost::Task)
    } else if spells(name, "UNIT") {
        Some(ActionCost::Unit)
    } else if spells(name, "DURATION") {
        Some(ActionCost::Duration)
    } else if spells(name, "RELATIVE") {
        Some(ActionCost::Relative)
    } else {
        None
    }
}

fn parse_search_algorithm(name: &Vec<char>) -> (res: Option<SearchAlgorithm>)
    ensures
        res == algorithm_named(name@),
{
    if spells(name, "A") {
        Some(SearchAlgorithm::A)
    } else if spells(name, "IDA") {
        Some(SearchAlgorithm::Ida)
    } else if spells(name, "HC") {
        Some(SearchAlgorithm::Hc)
    } else if spells(name, "BFS") {
        Some(SearchAlgorithm::Bfs)
    } else if spells(name, "GBFS") {
        Some(SearchAlgorithm::Gbfs)
    } else if spells(name, "LGBFS") {
        Some(SearchAlgorithm::LazyGbfs)
    } else if spells(name, "LGBFS-D") {
        Some(SearchAlgorithm::LazyGbfsDual)
    } else if spells(name, "ALT") {
        Some(SearchAlgorithm::Alt)
    } else {
        None
    }
}

fn parse_limit(v: &Vec<char>) -> (res: Option<usize>)
    ensures
        res == limit_of(v@),
{
    let low = lower_case(v);
    if spells(&low, "unlimited") {
        Some(usize::MAX)
    } else {
        parse_usize(v)
    }
}

/// The weight of a text, in billionths.
pub fn parse_weight(v: &Vec<char>) -> (res: Option<i128>)
    ensures
        res == weight_of(v@),
{
    parse_scaled(v)
}

/// Reads what follows `-`: the letter of an option and the value attached to it.
fn read_option(arg: &Vec<char>) -> (res: Result<(char, Option<Vec<char>>), String>)
    requires
        arg@.len() > 1,
    ensures
        match (option_in(arg@), res) {
            (Ok((c, v)), Ok((d, w))) => c == d && match (v, w) {
                (Some(x), Some(y)) => y@ == x,
                (None, None) => true,
                _ => false,
            },
            (Err(e), Err(m)) => m@ == e,
            _ => false,
        },
{
    if arg[1] == '-' {
        let long = slice_of(arg, 2, arg.len());
        assert(long@ =~= arg@.skip(2));
        let k = find_from(&long, '=', 0);
        assert(long@.skip(0) =~= long@);
        let name = slice_of(&long, 0, k);
        assert(name@ =~= long@.take(k as int));
        match long_to_short(&name) {
            Some(c) => {
                if k < long.len() {
                    let value = slice_of(&long, k + 1, long.len());
                    assert(value@ =~= long@.skip(k + 1));
                    Ok((c, Some(value)))
                } else {
                    Ok((c, None))
                }
            },
            None => Err(quoted("unknown option `--", &name)),
        }
    } else if arg.len() > 2 {
        let value = slice_of(arg, 2, arg.len());
        assert(value@ =~= arg@.skip(2));
        Ok((arg[1], Some(value)))
    } else {
        Ok((arg[1], None))
    }
}

/// The verbosity with one more `-v`.
fn count_verbosity(old: u32, value: &Option<Vec<char>>) -> (res: Option<u32>)
    ensures
        res == verbosity_with(
            old,
            match value {
                Some(v) => Some(v@),
                None => None,
            },
        ),
{
    match value {
        None => Some(old.saturating_add(1)),
        Some(v) => {
            let mut i: usize = 0;
            while i < v.len()
                invariant
                    i <= v@.len(),
                    *value == Some(*v),
                    forall|k: int| 0 <= k < i ==> #[trigger] v@[k] == 'v',
                decreases v@.len() - i,
            {
                if v[i] != 'v' {
                    assert(!all_vs(v@));
                    return match parse_usize(v) {
                        Some(n) => {
                            if n <= u32::MAX as usize {
                                Some(n as u32)
                            } else {
                                None
                            }
                        },
                        None => None,
                    };
                }
                i = i + 1;
            }
            if v.len() >= u32::MAX as usize {
                Some(u32::MAX)
            } else {
                Some(old.saturating_add(1).saturating_add(v.len() as u32))
            }
        },
    }
}

/// Parses the command-line options.
pub fn parse_args(args: &Vec<String>) -> (res: Result<Request, String>)
    ensures
        is_parsed(spellings(args@), res),
{
    let ghost all = spellings(args@);
    let mut read = Reading::new();
    let mut only_files = false;
    let mut i: usize = 0;
    while i < args.len()
        invariant
            all == spellings(args@),
            i <= args@.len(),
            scanned(all, 0, false, first_settings()) == scanned(all, i as nat, only_files, read@),
        decreases args@.len() - i,
    {
        let arg = chars_of(args[i].as_str());
        assert(all[i as int] == arg@);
        if only_files || arg.len() <= 1 || arg[0] != '-' {
            read.add_file(args[i].as_str());
            i = i + 1;
        } else if spells(&arg, "--") {
            only_files = true;
            i = i + 1;
        } else {
            match read_option(&arg) {
                Err(e) => {
                    return Err(e);
                },
                Ok((c, value)) => {
                    if c == 'a' || c == 'f' || c == 'h' || c == 'l' || c == 'S' || c == 's' || c == 'T' || c == 't' || c == 'w' {
                        match value {
                            Some(v) => {
                                match read.take_value(c, &v) {
                                    Err(e) => {
                                        return Err(e);
                                    },
                                    Ok(_) => {},
                                }
                                i = i + 1;
                            },
                            None => {
                                if i + 1 >= args.len() {
                                    let mut m = "option -".to_string();
                                    m.push(c);
                                    m.append(" requires an argument");
                                    return Err(m);
                                }
                                let v = chars_of(args[i + 1].as_str());
                                assert(all[i + 1] == v@);
                                match read.take_value(c, &v) {
                                    Err(e) => {
                                        return Err(e);
                                    },
                                    Ok(_) => {},
                                }
                                i = i + 2;
                            },
                        }
                    } else if c == 'd' || c == 'W' {
                        i = i + 1;
                    } else if c == 'P' {
                        read.fdr = true;
                        i = i + 1;
                    } else if c == 'g' {
                        read.ground = true;
                        i = i + 1;
                    } else if c == 'H' {
                        return Ok(Request::Help);
                    } else if c == 'V' {
                        return Ok(Request::Version);
                    } else if c == 'r' {
                        return Err("-r (random open conditions) is not yet supported".to_string());
                    } else if c == 'v' {
                        match count_verbosity(read.verbosity, &value) {
                            Some(n) => {
                                read.verbosity = n;
                            },
                            None => {
                                return match value {
                                    Some(v) => Err(quoted("invalid verbosity `", &v)),
                                    None => Err(String::new()),
                                };
                            },
                        }
                        i = i + 1;
                    } else {
                        let mut m = "unknown option `-".to_string();
                        m.push(c);
                        m.append("`");
                        return Err(m);
                    }
                },
            }
        }
    }
    read.finish()
}

/// The name of an action cost model.
pub open spec fn cost_name(cost: ActionCost) -> Seq<char> {
    match cost {
        ActionCost::Task => "TASK"@,
        ActionCost::Unit => "UNIT"@,
        ActionCost::Duration => "DURATION"@,
        ActionCost::Relative => "RELATIVE"@,
    }
}

/// The name of an action cost model.
pub fn action_cost_name(cost: ActionCost) -> (res: &'static str)
    ensures
        res@ == cost_name(cost),
{
    match cost {
        ActionCost::Task => "TASK",
        ActionCost::Unit => "UNIT",
        ActionCost::Duration => "DURATION",
        ActionCost::Relative => "RELATIVE",
    }
}

/// A character as it stands in a JSON string.
pub open spec fn escaped_char(c: char) -> Seq<char> {
    if c == '"' {
        "\\\""@
    } else if c == '\\' {
        "\\\\"@
    } else if c == '\n' {
        "\\n"@
    } else if c == '\t' {
        "\\t"@
    } else if c == '\r' {
        "\\r"@
    } else {
        seq![c]
    }
}

/// A text as it stands in a JSON string.
pub open spec fn escaped(s: Seq<char>) -> Seq<char>
    decreases s.len(),
{
    if s.len() == 0 {
        seq![]
    } else {
        escaped(s.drop_last()) + escaped_char(s.last())
    }
}

/// Minimal JSON string escaping.
pub fn json_escape(s: &str) -> (res: String)
    ensures
        res@ == escaped(s@),
{
    let all = chars_of(s);
    let mut out = String::new();
    let mut i: usize = 0;
    assert(all@.take(0) =~= seq![]);
    assert(out@ =~= seq![]);
    while i < all.len()
        invariant
            all@ == s@,
            i <= all@.len(),
            out@ == escaped(all@.take(i as int)),
        decreases all@.len() - i,
    {
        let c = all[i];
        let ghost before = out@;
        proof {
            assert(all@.take(i + 1).drop_last() =~= all@.take(i as int));
            assert(all@.take(i + 1).last() == c);
        }
        if c == '"' {
            out.append("\\\"");
        } else if c == '\\' {
            out.append("\\\\");
        } else if c == '\n' {
            out.append("\\n");
        } else if c == '\t' {
            out.append("\\t");
        } else if c == '\r' {
            out.append("\\r");
        } else {
            out.push(c);
            assert(out@ =~= before + seq![c]);
        }
        i = i + 1;
    }
    assert(all@.take(i as int) =~= all@);
    out
}

/// A search limit as text.
pub open spec fn limit_text(n: usize) -> Seq<char> {
    if n == usize::MAX {
        "unlimited"@
    } else {
        decimal(n as nat)
    }
}

/// A text with the first `n` of some limits behind it, separated by commas.
pub open spec fn with_limits(before: Seq<char>, limits: Seq<usize>, n: nat) -> Seq<char>
    decreases n,
{
    if n == 0 {
        before
    } else {
        let rest = with_limits(before, limits, (n - 1) as nat);
        let apart = if n > 1 {
            rest + ","@
        } else {
            rest
        };
        apart + limit_text(limits[n - 1])
    }
}

/// A text with the first `n` of some names behind it, separated by commas.
pub open spec fn with_list(before: Seq<char>, names: Seq<Seq<char>>, n: nat) -> Seq<char>
    decreases n,
{
    if n == 0 {
        before
    } else {
        let rest = with_list(before, names, (n - 1) as nat);
        let apart = if n > 1 {
            rest + ","@
        } else {
            rest
        };
        apart + names[n - 1]
    }
}

impl Cli {
    /// How plans are represented.
    pub open spec fn representation(&self) -> Seq<char> {
        if self.fdr_pocl {
            "finite-domain POCL"@
        } else if self.params.ground_actions {
            "ground literal POCL"@
        } else {
            "lifted POCL"@
        }
    }

    /// The line that describes the search.
    pub open spec fn described(&self) -> Seq<char> {
        let names = spellings(self.flaw_order_names@);
        let limits = self.params.search_limits@;
        let head = "Search: "@ + self.representation() + " | "@ + self.algorithm_name@ + "("@ + self.heuristic_name@ + ") | flaws "@;
        let flaws = with_list(head, names, names.len()) + " | cost "@ + cost_name(self.params.action_cost) + " | weight "@ + scaled_text(
            self.params.weight,
        ) + " | "@;
        let label = if self.params.flaw_orders@.len() == 1 {
            flaws + "node limit"@
        } else {
            flaws + "node limits"@
        };
        with_limits(label + " "@, limits, limits.len())
    }

    /// The line that describes the search.
    pub fn configuration(&self) -> (res: String)
        ensures
            res@ == self.described(),
    {
        let ghost names = spellings(self.flaw_order_names@);
        let mut out = "Search: ".to_string();
        if self.fdr_pocl {
            out.append("finite-domain POCL");
        } else if self.params.ground_actions {
            out.append("ground literal POCL");
        } else {
            out.append("lifted POCL");
        }
        out.append(" | ");
        out.append(self.algorithm_name.as_str());
        out.append("(");
        out.append(self.heuristic_name.as_str());
        out.append(") | flaws ");
        let ghost head = out@;
        let mut i: usize = 0;
        while i < self.flaw_order_names.len()
            invariant
                names == spellings(self.flaw_order_names@),
                i <= self.flaw_order_names@.len(),
                out@ == with_list(head, names, i as nat),
            decreases self.flaw_order_names@.len() - i,
        {
            if i > 0 {
                out.append(",");
            }
            out.append(self.flaw_order_names[i].as_str());
            i = i + 1;
        }
        out.append(" | cost ");
        out.append(action_cost_name(self.params.action_cost));
        out.append(" | weight ");
        push_scaled(&mut out, self.params.weight);
        out.append(" | ");
        if self.params.flaw_orders.len() == 1 {
            out.append("node limit");
        } else {
            out.append("node limits");
        }
        out.append(" ");
        let ghost here = out@;
        let mut k: usize = 0;
        while k < self.params.search_limits.len()
            invariant
                k <= self.params.search_limits@.len(),
                out@ == with_limits(here, self.params.search_limits@, k as nat),
            decreases self.params.search_limits@.len() - k,
        {
            if k > 0 {
                out.append(",");
            }
            let n = self.params.search_limits[k];
            if n == usize::MAX {
                out.append("unlimited");
            } else {
                push_number(&mut out, n as u128);
            }
            k = k + 1;
        }
        out
    }
}

/// Whatever the options, there is a flaw order, and every flaw order has a name and a
/// search limit.
pub proof fn every_order_has_a_limit(s: Settings)
    requires
        s.orders.len() == s.tiers.len(),
    ensures
        tiers_of(s).len() > 0,
        order_names_of(s).len() == tiers_of(s).len(),
        limits_of(s).len() >= tiers_of(s).len(),
{
}

/// An escaped text holds no line end, no tab and no carriage return.
pub proof fn escaped_is_one_line(s: Seq<char>)
    ensures
        forall|i: int|
            0 <= i < escaped(s).len() ==> (#[trigger] escaped(s)[i]) != '\n' && escaped(s)[i] != '\t' && escaped(s)[i] != '\r',
    decreases s.len(),
{
    if s.len() > 0 {
        escaped_is_one_line(s.drop_last());
        reveal_strlit("\\\"");
        reveal_strlit("\\\\");
        reveal_strlit("\\n");
        reveal_strlit("\\t");
        reveal_strlit("\\r");
        let front = escaped(s.drop_last());
        assert forall|i: int| 0 <= i < escaped(s).len() implies (#[trigger] escaped(s)[i]) != '\n' && escaped(s)[i] != '\t' && escaped(s)[i]
            != '\r' by {
            if i < front.len() {
                assert(escaped(s)[i] == front[i]);
            }
        }
    }
}

} // verus!
