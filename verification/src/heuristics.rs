//! Plan-ranking heuristics and flaw-selection orders.
use vstd::prelude::*;

use crate::external::FdHeuristic;
use crate::sample_ff::DEFAULT_SAMPLES;
use crate::text::{
    all_digits, bounded_value, chars_of, find_char, find_from, is_digit, lower, lower_case, number_of, parse_usize, slice_of, spells, split,
    split_on, string_of, texts, upper, upper_case,
};

verus! {

/// A plan-ranking heuristic value. `MAKESPAN` (temporal) is deferred.
#[derive(Debug, Clone, Copy, PartialEq, Eq, Structural)]
pub enum HVal {
    Lifo,
    Fifo,
    Oc,
    Uc,
    Buc,
    SPlusOc,
    Ucpop,
    Add,
    AddCost,
    AddWork,
    Addr,
    AddrCost,
    AddrWork,
    /// Relax / RePOP heuristic: size of a delete-relaxed plan for the open
    /// conditions (FF-style joint extraction). `Relax` counts every relaxed-plan
    /// action; `RelaxR` reuses existing plan steps (counts only new actions).
    Relax,
    RelaxR,
    /// Native LM-cut over the FDR POCL open-condition relaxation. `LmCut`
    /// starts from the problem initial state; `LmCutR` also treats effects of
    /// committed steps as initially available. FDR POCL search only.
    LmCut,
    LmCutR,
    /// Sample-FF heuristic (Bercher et al. 2013): keep the committed plan steps
    /// non-relaxed and fill the gaps between them with delete relaxation, over
    /// `usize` sampled linearizations of the partial order. Ground search only.
    SampleFf(usize),
    /// Lplan LP heuristic (Bylander 1997): the smallest horizon whose relaxed LP
    /// over the causal-link compilation reaches the goal. Ground search only.
    Lplan,
    /// Causal-link compilation heuristic, evaluated by Fast Downward with the
    /// given backend.
    Compile(FdHeuristic),
}

impl HVal {
    /// Whether the term reads the planning graph.
    pub open spec fn reads_graph(self) -> bool {
        match self {
            HVal::Add | HVal::AddCost | HVal::AddWork | HVal::Addr | HVal::AddrCost | HVal::AddrWork | HVal::Relax | HVal::RelaxR => true,
            _ => false,
        }
    }

    /// Whether the term is defined for finite-domain plans only.
    pub open spec fn fdr_only(self) -> bool {
        self == HVal::LmCut || self == HVal::LmCutR
    }

    fn uses_graph(self) -> (res: bool)
        ensures
            res == self.reads_graph(),
    {
        match self {
            HVal::Add | HVal::AddCost | HVal::AddWork | HVal::Addr | HVal::AddrCost | HVal::AddrWork | HVal::Relax | HVal::RelaxR => true,
            _ => false,
        }
    }
}

/// Some term reads the planning graph.
pub open spec fn any_reads_graph(terms: Seq<HVal>) -> bool {
    exists|i: int| 0 <= i < terms.len() && (#[trigger] terms[i]).reads_graph()
}

/// The backend that a compilation heuristic's name denotes (in upper case).
pub open spec fn backend_of(upper: Seq<char>) -> Option<FdHeuristic> {
    if upper == "COMPILE"@ {
        Some(FdHeuristic::Ff)
    } else if upper == "COMPILE_FF"@ {
        Some(FdHeuristic::Ff)
    } else if upper == "COMPILE_LMCUT"@ {
        Some(FdHeuristic::LmCut)
    } else if upper == "COMPILE_HMAX"@ {
        Some(FdHeuristic::HMax)
    } else if upper == "COMPILE_HADD"@ {
        Some(FdHeuristic::HAdd)
    } else if upper == "COMPILE_BLIND"@ {
        Some(FdHeuristic::Blind)
    } else {
        None
    }
}

/// Parses a `COMPILE[_FF|_LMCUT|_HMAX|_HADD|_BLIND]` heuristic name into the
/// backend, or `None` if not a compile heuristic.
pub fn parse_backend(name: &str) -> (res: Option<FdHeuristic>)
    ensures
        res == backend_of(upper(name@)),
{
    let name = chars_of(name);
    let upper = upper_case(&name);
    backend_named(&upper)
}

fn backend_named(upper: &Vec<char>) -> (res: Option<FdHeuristic>)
    ensures
        res == backend_of(upper@),
{
    if spells(upper, "COMPILE") {
        Some(FdHeuristic::Ff)
    } else if spells(upper, "COMPILE_FF") {
        Some(FdHeuristic::Ff)
    } else if spells(upper, "COMPILE_LMCUT") {
        Some(FdHeuristic::LmCut)
    } else if spells(upper, "COMPILE_HMAX") {
        Some(FdHeuristic::HMax)
    } else if spells(upper, "COMPILE_HADD") {
        Some(FdHeuristic::HAdd)
    } else if spells(upper, "COMPILE_BLIND") {
        Some(FdHeuristic::Blind)
    } else {
        None
    }
}

/// Whether the text begins with `SAMPLE_FF:`.
pub open spec fn sampled(upper: Seq<char>) -> bool {
    upper.len() >= "SAMPLE_FF:"@.len() && upper.take("SAMPLE_FF:"@.len() as int) == "SAMPLE_FF:"@
}

/// The ranking term that one part of a heuristic name denotes, or what is wrong
/// with it.
pub open spec fn term_of(part: Seq<char>) -> Result<HVal, Seq<char>> {
    let upper = upper(part);
    if backend_of(upper) is Some {
        Ok(HVal::Compile(backend_of(upper)->0))
    } else if upper == "SAMPLE_FF"@ {
        Ok(HVal::SampleFf(DEFAULT_SAMPLES))
    } else if sampled(upper) {
        let count = upper.skip("SAMPLE_FF:"@.len() as int);
        match bounded_value(count, usize::MAX as nat) {
            None => Err("invalid SAMPLE_FF sample count `"@ + count + "`"@),
            Some(n) => if n == 0 {
                Err("SAMPLE_FF sample count must be positive"@)
            } else {
                Ok(HVal::SampleFf(n as usize))
            },
        }
    } else {
        plain_term_of(upper)
    }
}

pub open spec fn plain_term_of(upper: Seq<char>) -> Result<HVal, Seq<char>> {
    if upper == "LIFO"@ {
        Ok(HVal::Lifo)
    } else if upper == "FIFO"@ {
        Ok(HVal::Fifo)
    } else if upper == "OC"@ {
        Ok(HVal::Oc)
    } else if upper == "UC"@ {
        Ok(HVal::Uc)
    } else if upper == "BUC"@ {
        Ok(HVal::Buc)
    } else if upper == "S+OC"@ {
        Ok(HVal::SPlusOc)
    } else if upper == "UCPOP"@ {
        Ok(HVal::Ucpop)
    } else if upper == "ADD"@ {
        Ok(HVal::Add)
    } else if upper == "ADD_COST"@ {
        Ok(HVal::AddCost)
    } else if upper == "ADD_WORK"@ {
        Ok(HVal::AddWork)
    } else if upper == "ADDR"@ {
        Ok(HVal::Addr)
    } else if upper == "ADDR_COST"@ {
        Ok(HVal::AddrCost)
    } else if upper == "ADDR_WORK"@ {
        Ok(HVal::AddrWork)
    } else if upper == "RELAX"@ {
        Ok(HVal::Relax)
    } else if upper == "RELAXR"@ {
        Ok(HVal::RelaxR)
    } else if upper == "LMCUT"@ {
        Ok(HVal::LmCut)
    } else if upper == "LM-CUT"@ {
        Ok(HVal::LmCut)
    } else if upper == "LMCUTR"@ {
        Ok(HVal::LmCutR)
    } else if upper == "LM-CUTR"@ {
        Ok(HVal::LmCutR)
    } else if upper == "LPLAN"@ {
        Ok(HVal::Lplan)
    } else if upper == "MAKESPAN"@ {
        Err("heuristic `MAKESPAN` is temporal and not yet supported"@)
    } else {
        Err("invalid heuristic `"@ + upper + "`"@)
    }
}

fn parse_plain_term(upper: &Vec<char>) -> (res: Result<HVal, String>)
    ensures
        match (res, plain_term_of(upper@)) {
            (Ok(a), Ok(b)) => a == b,
            (Err(a), Err(b)) => a@ == b,
            _ => false,
        },
{
    if spells(upper, "LIFO") {
        Ok(HVal::Lifo)
    } else if spells(upper, "FIFO") {
        Ok(HVal::Fifo)
    } else if spells(upper, "OC") {
        Ok(HVal::Oc)
    } else if spells(upper, "UC") {
        Ok(HVal::Uc)
    } else if spells(upper, "BUC") {
        Ok(HVal::Buc)
    } else if spells(upper, "S+OC") {
        Ok(HVal::SPlusOc)
    } else if spells(upper, "UCPOP") {
        Ok(HVal::Ucpop)
    } else if spells(upper, "ADD") {
        Ok(HVal::Add)
    } else if spells(upper, "ADD_COST") {
        Ok(HVal::AddCost)
    } else if spells(upper, "ADD_WORK") {
        Ok(HVal::AddWork)
    } else if spells(upper, "ADDR") {
        Ok(HVal::Addr)
    } else if spells(upper, "ADDR_COST") {
        Ok(HVal::AddrCost)
    } else if spells(upper, "ADDR_WORK") {
        Ok(HVal::AddrWork)
    } else if spells(upper, "RELAX") {
        Ok(HVal::Relax)
    } else if spells(upper, "RELAXR") {
        Ok(HVal::RelaxR)
    } else if spells(upper, "LMCUT") {
        Ok(HVal::LmCut)
    } else if spells(upper, "LM-CUT") {
        Ok(HVal::LmCut)
    } else if spells(upper, "LMCUTR") {
        Ok(HVal::LmCutR)
    } else if spells(upper, "LM-CUTR") {
        Ok(HVal::LmCutR)
    } else if spells(upper, "LPLAN") {
        Ok(HVal::Lplan)
    } else if spells(upper, "MAKESPAN") {
        Err(String::from_str("heuristic `MAKESPAN` is temporal and not yet supported"))
    } else {
        let mut m = String::from_str("invalid heuristic `");
        let t = string_of(upper);
        m.append(t.as_str());
        m.append("`");
        Err(m)
    }
}

fn parse_term(part: &Vec<char>) -> (res: Result<HVal, String>)
    ensures
        match (res, term_of(part@)) {
            (Ok(a), Ok(b)) => a == b,
            (Err(a), Err(b)) => a@ == b,
            _ => false,
        },
{
    let upper = upper_case(part);
    if let Some(backend) = backend_named(&upper) {
        return Ok(HVal::Compile(backend));
    }
    if spells(&upper, "SAMPLE_FF") {
        return Ok(HVal::SampleFf(DEFAULT_SAMPLES));
    }
    let prefix = chars_of("SAMPLE_FF:");
    if upper.len() >= prefix.len() {
        let head = slice_of(&upper, 0, prefix.len());
        assert(upper@.subrange(0, prefix@.len() as int) =~= upper@.take(prefix@.len() as int));
        if spells(&head, "SAMPLE_FF:") {
            let count = slice_of(&upper, prefix.len(), upper.len());
            assert(upper@.subrange(prefix@.len() as int, upper@.len() as int) =~= upper@.skip(prefix@.len() as int));
            return match parse_usize(&count) {
                None => {
                    let mut m = String::from_str("invalid SAMPLE_FF sample count `");
                    let t = string_of(&count);
                    m.append(t.as_str());
                    m.append("`");
                    Err(m)
                },
                Some(n) => {
                    if n == 0 {
                        Err(String::from_str("SAMPLE_FF sample count must be positive"))
                    } else {
                        Ok(HVal::SampleFf(n))
                    }
                },
            };
        }
    }
    parse_plain_term(&upper)
}

/// The ranking terms that the parts of a heuristic name denote, behind those in
/// `acc`; or what is wrong with the first wrong part.
pub open spec fn terms_of(parts: Seq<Seq<char>>, acc: Seq<HVal>) -> Result<Seq<HVal>, Seq<char>>
    decreases parts.len(),
{
    if parts.len() == 0 {
        Ok(acc)
    } else {
        match term_of(parts[0]) {
            Err(e) => Err(e),
            Ok(t) => terms_of(parts.drop_first(), acc.push(t)),
        }
    }
}

/// A plan-ranking heuristic (a sequence of ranking terms).
#[derive(Debug)]
pub struct Heuristic {
    h: Vec<HVal>,
    needs_pg: bool,
}

impl Heuristic {
    /// The ranking terms, the most significant first.
    pub closed spec fn ranking(&self) -> Seq<HVal> {
        self.h@
    }

    #[verifier::type_invariant]
    spec fn coherent(&self) -> bool {
        &&& self.needs_pg == any_reads_graph(self.h@)
        &&& self.h@.len() > 0
    }

    /// The ranking by one term.
    pub fn of_term(term: HVal) -> (res: Heuristic)
        ensures
            res.ranking() == seq![term],
    {
        let mut h: Vec<HVal> = Vec::new();
        h.push(term);
        let needs_pg = term.uses_graph();
        proof {
            assert(h@[0] == term);
            assert(h@ =~= seq![term]);
        }
        Heuristic { h, needs_pg }
    }

    /// Parses a heuristic name: ranking terms separated by `/`.
    pub fn parse(name: &str) -> (res: Result<Heuristic, String>)
        ensures
            match (res, terms_of(split(name@, '/'), Seq::empty())) {
                (Ok(h), Ok(terms)) => h.ranking() == terms,
                (Err(a), Err(b)) => a@ == b,
                _ => false,
            },
    {
        let chars = chars_of(name);
        let parts = split_on(&chars, '/');
        let ghost ps = texts(parts@);
        let mut h: Vec<HVal> = Vec::new();
        let mut needs_pg = false;
        let mut i: usize = 0;
        assert(ps.skip(0) =~= ps);
        while i < parts.len()
            invariant
                ps == texts(parts@),
                i <= parts@.len(),
                terms_of(ps, Seq::empty()) == terms_of(ps.skip(i as int), h@),
                ps == split(name@, '/'),
                needs_pg == any_reads_graph(h@),
                h@.len() == i,
            decreases parts@.len() - i,
        {
            assert(ps.skip(i as int)[0] == parts@[i as int]@);
            assert(ps.skip(i as int).drop_first() =~= ps.skip(i + 1));
            match parse_term(&parts[i]) {
                Err(e) => {
                    return Err(e);
                },
                Ok(term) => {
                    let ghost before = h@;
                    if term.uses_graph() {
                        needs_pg = true;
                    }
                    h.push(term);
                    proof {
                        assert(h@[before.len() as int] == term);
                        if any_reads_graph(before) {
                            let k = choose|k: int| 0 <= k < before.len() && (#[trigger] before[k]).reads_graph();
                            assert(h@[k].reads_graph());
                        }
                        if any_reads_graph(h@) {
                            let k = choose|k: int| 0 <= k < h@.len() && (#[trigger] h@[k]).reads_graph();
                            if k < before.len() {
                                assert(before[k].reads_graph());
                            }
                        }
                    }
                },
            }
            i = i + 1;
        }
        assert(parts@.len() == ps.len());
        Ok(Heuristic { h, needs_pg })
    }

    /// Whether some ranking term reads the planning graph.
    pub fn needs_planning_graph(&self) -> (res: bool)
        ensures
            res == any_reads_graph(self.ranking()),
    {
        proof {
            use_type_invariant(self);
        }
        self.needs_pg
    }

    /// Whether this ranking contains a heuristic defined only for native FDR
    /// POCL nodes rather than the literal partial-plan representation.
    pub fn requires_fdr_pocl(&self) -> (res: bool)
        ensures
            res == exists|i: int| 0 <= i < self.ranking().len() && (#[trigger] self.ranking()[i]).fdr_only(),
    {
        let mut i: usize = 0;
        while i < self.h.len()
            invariant
                i <= self.h@.len(),
                forall|k: int| 0 <= k < i ==> !(#[trigger] self.h@[k]).fdr_only(),
            decreases self.h@.len() - i,
        {
            if self.h[i] == HVal::LmCut || self.h[i] == HVal::LmCutR {
                assert(self.ranking()[i as int].fdr_only());
                return true;
            }
            i = i + 1;
        }
        false
    }

    /// The parsed ranking terms, for alternate plan representations.
    pub fn terms(&self) -> (res: &Vec<HVal>)
        ensures
            res@ == self.ranking(),
            res@.len() > 0,
    {
        proof {
            use_type_invariant(self);
        }
        &self.h
    }
}

/// How a criterion orders the flaws that it admits.
#[derive(Debug, Clone, Copy, PartialEq, Eq, Structural)]
pub enum OrderType {
    Lifo,
    Fifo,
    Random,
    /// Least refinements.
    Lr,
    /// Most refinements.
    Mr,
    /// Prefer open conditions with a new-step achiever.
    New,
    /// Prefer open conditions with a reuse achiever.
    Reuse,
    /// Least heuristic cost.
    Lc,
    /// Most heuristic cost.
    Mc,
    /// Least heuristic work.
    Lw,
    /// Most heuristic work.
    Mw,
}

impl OrderType {
    /// Whether the order ranks by an estimate.
    pub open spec fn estimates(self) -> bool {
        self == OrderType::Lc || self == OrderType::Mc || self == OrderType::Lw || self == OrderType::Mw
    }

    /// Whether the order can rank threats.
    pub open spec fn ranks_threats(self) -> bool {
        self == OrderType::Lifo || self == OrderType::Fifo || self == OrderType::Random || self == OrderType::Lr || self == OrderType::Mr
    }

    pub fn reads_estimates(self) -> (res: bool)
        ensures
            res == self.estimates(),
    {
        self == OrderType::Lc || self == OrderType::Mc || self == OrderType::Lw || self == OrderType::Mw
    }
}

/// One tier of a flaw-selection order: the flaws it admits and their order.
#[derive(Debug, Clone, Copy, PartialEq, Eq, Structural)]
pub struct SelectionCriterion {
    pub non_separable: bool,
    pub separable: bool,
    pub open_cond: bool,
    pub local_open_cond: bool,
    pub static_open_cond: bool,
    pub unsafe_open_cond: bool,
    /// `i32::MAX` means unlimited.
    pub max_refinements: i32,
    pub order: OrderType,
    /// Whether the estimates of the order count existing steps as free.
    pub reuse: bool,
}

impl SelectionCriterion {
    /// The criterion speaks of threats.
    pub open spec fn threats(self) -> bool {
        self.non_separable || self.separable
    }

    /// The criterion speaks of open conditions.
    pub open spec fn opens(self) -> bool {
        self.open_cond || self.local_open_cond || self.static_open_cond || self.unsafe_open_cond
    }
}

/// What a predefined flaw-selection order stands for (the name in lower case).
pub open spec fn alias_of(low: Seq<char>) -> Option<Seq<char>> {
    if low == "ucpop"@ {
        Some("{n,s}LIFO/{o}LIFO"@)
    } else if low == "ucpop-lc"@ {
        Some("{n,s}LIFO/{o}LR"@)
    } else if low == "ucpop-mc"@ {
        Some("{n,s}LIFO/{o}MR"@)
    } else if low == "ucpop-lc-mc"@ {
        Some("{n,s}LIFO/{o}LR/{o}MR"@)
    } else if low == "dsep-lifo"@ {
        Some("{n}LIFO/{o}LIFO/{s}LIFO"@)
    } else if low == "dsep-fifo"@ {
        Some("{n}LIFO/{o}FIFO/{s}LIFO"@)
    } else if low == "dsep-lc"@ {
        Some("{n}LIFO/{o}LR/{s}LIFO"@)
    } else if low == "dunf-lifo"@ {
        Some("{n,s}0LIFO/{n,s}1LIFO/{o}LIFO/{n,s}LIFO"@)
    } else if low == "dunf-fifo"@ {
        Some("{n,s}0LIFO/{n,s}1LIFO/{o}FIFO/{n,s}LIFO"@)
    } else if low == "dunf-lc"@ {
        Some("{n,s}0LIFO/{n,s}1LIFO/{o}LR/{n,s}LIFO"@)
    } else if low == "dunf-gen"@ {
        Some("{n,s,o}0LIFO/{n,s,o}1LIFO/{n,s,o}LIFO"@)
    } else if low == "dres-lifo"@ {
        Some("{n,s}0LIFO/{o}LIFO/{n,s}LIFO"@)
    } else if low == "dres-fifo"@ {
        Some("{n,s}0LIFO/{o}FIFO/{n,s}LIFO"@)
    } else if low == "dres-lc"@ {
        Some("{n,s}0LIFO/{o}LR/{n,s}LIFO"@)
    } else if low == "dend-lifo"@ {
        Some("{o}LIFO/{n,s}LIFO"@)
    } else if low == "dend-fifo"@ {
        Some("{o}FIFO/{n,s}LIFO"@)
    } else if low == "dend-lc"@ {
        Some("{o}LR/{n,s}LIFO"@)
    } else if low == "lcfr"@ {
        Some("{n,s,o}LR"@)
    } else if low == "lcfr-dsep"@ {
        Some("{n,o}LR/{s}LR"@)
    } else if low == "zlifo"@ {
        Some("{n}LIFO/{o}0LIFO/{o}1NEW/{o}LIFO/{s}LIFO"@)
    } else if low == "zlifo*"@ {
        Some("{o}0LIFO/{n,s}LIFO/{o}1NEW/{o}LIFO"@)
    } else if low == "static"@ {
        Some("{t}LIFO/{n,s}LIFO/{o}LIFO"@)
    } else if low == "lcfr-loc"@ {
        Some("{n,s,l}LR"@)
    } else if low == "lcfr-conf"@ {
        Some("{n,s,u}LR/{o}LR"@)
    } else if low == "lcfr-loc-conf"@ {
        Some("{n,s,u}LR/{l}LR"@)
    } else if low == "mc"@ {
        Some("{n,s}LR/{o}MC_add"@)
    } else if low == "mc-loc"@ {
        Some("{n,s}LR/{l}MC_add"@)
    } else if low == "mc-loc-conf"@ {
        Some("{n,s}LR/{u}MC_add/{l}MC_add"@)
    } else if low == "mw"@ {
        Some("{n,s}LR/{o}MW_add"@)
    } else if low == "mw-loc"@ {
        Some("{n,s}LR/{l}MW_add"@)
    } else if low == "mw-loc-conf"@ {
        Some("{n,s}LR/{u}MW_add/{l}MW_add"@)
    } else if low == "lc_add"@ {
        Some("{n,s}LR/{o}LC_add"@)
    } else if low == "mc_add"@ {
        Some("{n,s}LR/{o}MC_add"@)
    } else if low == "lw_add"@ {
        Some("{n,s}LR/{o}LW_add"@)
    } else if low == "mw_add"@ {
        Some("{n,s}LR/{o}MW_add"@)
    } else {
        None
    }
}

fn alias_named(low: &Vec<char>) -> (res: Option<&'static str>)
    ensures
        match (res, alias_of(low@)) {
            (Some(a), Some(b)) => a@ == b,
            (None, None) => true,
            _ => false,
        },
{
    if spells(low, "ucpop") {
        Some("{n,s}LIFO/{o}LIFO")
    } else if spells(low, "ucpop-lc") {
        Some("{n,s}LIFO/{o}LR")
    } else if spells(low, "ucpop-mc") {
        Some("{n,s}LIFO/{o}MR")
    } else if spells(low, "ucpop-lc-mc") {
        Some("{n,s}LIFO/{o}LR/{o}MR")
    } else if spells(low, "dsep-lifo") {
        Some("{n}LIFO/{o}LIFO/{s}LIFO")
    } else if spells(low, "dsep-fifo") {
        Some("{n}LIFO/{o}FIFO/{s}LIFO")
    } else if spells(low, "dsep-lc") {
        Some("{n}LIFO/{o}LR/{s}LIFO")
    } else if spells(low, "dunf-lifo") {
        Some("{n,s}0LIFO/{n,s}1LIFO/{o}LIFO/{n,s}LIFO")
    } else if spells(low, "dunf-fifo") {
        Some("{n,s}0LIFO/{n,s}1LIFO/{o}FIFO/{n,s}LIFO")
    } else if spells(low, "dunf-lc") {
        Some("{n,s}0LIFO/{n,s}1LIFO/{o}LR/{n,s}LIFO")
    } else if spells(low, "dunf-gen") {
        Some("{n,s,o}0LIFO/{n,s,o}1LIFO/{n,s,o}LIFO")
    } else if spells(low, "dres-lifo") {
        Some("{n,s}0LIFO/{o}LIFO/{n,s}LIFO")
    } else if spells(low, "dres-fifo") {
        Some("{n,s}0LIFO/{o}FIFO/{n,s}LIFO")
    } else if spells(low, "dres-lc") {
        Some("{n,s}0LIFO/{o}LR/{n,s}LIFO")
    } else if spells(low, "dend-lifo") {
        Some("{o}LIFO/{n,s}LIFO")
    } else if spells(low, "dend-fifo") {
        Some("{o}FIFO/{n,s}LIFO")
    } else if spells(low, "dend-lc") {
        Some("{o}LR/{n,s}LIFO")
    } else if spells(low, "lcfr") {
        Some("{n,s,o}LR")
    } else if spells(low, "lcfr-dsep") {
        Some("{n,o}LR/{s}LR")
    } else if spells(low, "zlifo") {
        Some("{n}LIFO/{o}0LIFO/{o}1NEW/{o}LIFO/{s}LIFO")
    } else if spells(low, "zlifo*") {
        Some("{o}0LIFO/{n,s}LIFO/{o}1NEW/{o}LIFO")
    } else if spells(low, "static") {
        Some("{t}LIFO/{n,s}LIFO/{o}LIFO")
    } else if spells(low, "lcfr-loc") {
        Some("{n,s,l}LR")
    } else if spells(low, "lcfr-conf") {
        Some("{n,s,u}LR/{o}LR")
    } else if spells(low, "lcfr-loc-conf") {
        Some("{n,s,u}LR/{l}LR")
    } else if spells(low, "mc") {
        Some("{n,s}LR/{o}MC_add")
    } else if spells(low, "mc-loc") {
        Some("{n,s}LR/{l}MC_add")
    } else if spells(low, "mc-loc-conf") {
        Some("{n,s}LR/{u}MC_add/{l}MC_add")
    } else if spells(low, "mw") {
        Some("{n,s}LR/{o}MW_add")
    } else if spells(low, "mw-loc") {
        Some("{n,s}LR/{l}MW_add")
    } else if spells(low, "mw-loc-conf") {
        Some("{n,s}LR/{u}MW_add/{l}MW_add")
    } else if spells(low, "lc_add") {
        Some("{n,s}LR/{o}LC_add")
    } else if spells(low, "mc_add") {
        Some("{n,s}LR/{o}MC_add")
    } else if spells(low, "lw_add") {
        Some("{n,s}LR/{o}LW_add")
    } else if spells(low, "mw_add") {
        Some("{n,s}LR/{o}MW_add")
    } else {
        None
    }
}

/// The order that a key names (in lower case), and whether it reuses steps.
/// Only the orders that need no open condition can be used with threats.
pub open spec fn key_of(key: Seq<char>, threats: bool) -> Option<(OrderType, bool)> {
    if key == "lifo"@ {
        Some((OrderType::Lifo, false))
    } else if key == "fifo"@ {
        Some((OrderType::Fifo, false))
    } else if key == "r"@ {
        Some((OrderType::Random, false))
    } else if key == "lr"@ {
        Some((OrderType::Lr, false))
    } else if key == "mr"@ {
        Some((OrderType::Mr, false))
    } else if threats {
        None
    } else if key == "new"@ {
        Some((OrderType::New, false))
    } else if key == "reuse"@ {
        Some((OrderType::Reuse, false))
    } else if key == "lc_add"@ {
        Some((OrderType::Lc, false))
    } else if key == "lc_addr"@ {
        Some((OrderType::Lc, true))
    } else if key == "mc_add"@ {
        Some((OrderType::Mc, false))
    } else if key == "mc_addr"@ {
        Some((OrderType::Mc, true))
    } else if key == "lw_add"@ {
        Some((OrderType::Lw, false))
    } else if key == "lw_addr"@ {
        Some((OrderType::Lw, true))
    } else if key == "mw_add"@ {
        Some((OrderType::Mw, false))
    } else if key == "mw_addr"@ {
        Some((OrderType::Mw, true))
    } else {
        None
    }
}

fn key_named(key: &Vec<char>, threats: bool) -> (res: Option<(OrderType, bool)>)
    ensures
        res == key_of(key@, threats),
{
    if spells(key, "lifo") {
        Some((OrderType::Lifo, false))
    } else if spells(key, "fifo") {
        Some((OrderType::Fifo, false))
    } else if spells(key, "r") {
        Some((OrderType::Random, false))
    } else if spells(key, "lr") {
        Some((OrderType::Lr, false))
    } else if spells(key, "mr") {
        Some((OrderType::Mr, false))
    } else if threats {
        None
    } else if spells(key, "new") {
        Some((OrderType::New, false))
    } else if spells(key, "reuse") {
        Some((OrderType::Reuse, false))
    } else if spells(key, "lc_add") {
        Some((OrderType::Lc, false))
    } else if spells(key, "lc_addr") {
        Some((OrderType::Lc, true))
    } else if spells(key, "mc_add") {
        Some((OrderType::Mc, false))
    } else if spells(key, "mc_addr") {
        Some((OrderType::Mc, true))
    } else if spells(key, "lw_add") {
        Some((OrderType::Lw, false))
    } else if spells(key, "lw_addr") {
        Some((OrderType::Lw, true))
    } else if spells(key, "mw_add") {
        Some((OrderType::Mw, false))
    } else if spells(key, "mw_addr") {
        Some((OrderType::Mw, true))
    } else {
        None
    }
}

/// A flaw letter: threats (`n` non-separable, `s` separable) or open conditions
/// (`o` all, `l` local, `t` static, `u` unsafe).
pub open spec fn flaw_letter(c: char) -> bool {
    c == 'n' || c == 's' || c == 'o' || c == 'l' || c == 't' || c == 'u'
}

/// Every piece is one flaw letter.
pub open spec fn flaw_letters(pieces: Seq<Seq<char>>) -> bool {
    forall|i: int| 0 <= i < pieces.len() ==> (#[trigger] pieces[i]).len() == 1 && flaw_letter(pieces[i][0])
}

pub open spec fn names(pieces: Seq<Seq<char>>, c: char) -> bool {
    exists|i: int| 0 <= i < pieces.len() && (#[trigger] pieces[i])[0] == c
}

/// The number of leading digits.
pub open spec fn digits_end(s: Seq<char>) -> int
    decreases s.len(),
{
    if s.len() == 0 || !is_digit(s[0]) {
        0
    } else {
        1 + digits_end(s.drop_first())
    }
}

/// The optional refinement cap in front of an order key; none means unlimited.
pub open spec fn cap_of(digits: Seq<char>) -> Option<i32> {
    if digits.len() == 0 {
        Some(i32::MAX)
    } else if number_of(digits) <= i32::MAX {
        Some(number_of(digits) as i32)
    } else {
        None
    }
}

/// The criterion that one tier `{flaws}[max]ORDER` denotes.
pub open spec fn criterion_of(s: Seq<char>) -> Option<SelectionCriterion> {
    let close = find_char(s, '}');
    if s.len() == 0 || s[0] != '{' || close >= s.len() {
        None
    } else {
        let pieces = split(s.subrange(1, close), ',');
        let rest = s.skip(close + 1);
        let digits = rest.take(digits_end(rest));
        let key = lower(rest.skip(digits_end(rest)));
        let threats = names(pieces, 'n') || names(pieces, 's');
        let all = names(pieces, 'o');
        if !flaw_letters(pieces) {
            None
        } else {
            match (cap_of(digits), key_of(key, threats)) {
                (Some(cap), Some((order, reuse))) => Some(
                    SelectionCriterion {
                        non_separable: names(pieces, 'n'),
                        separable: names(pieces, 's'),
                        open_cond: all,
                        local_open_cond: !all && names(pieces, 'l'),
                        static_open_cond: !all && names(pieces, 't'),
                        unsafe_open_cond: !all && names(pieces, 'u'),
                        max_refinements: cap,
                        order,
                        reuse,
                    },
                ),
                _ => None,
            }
        }
    }
}

/// The criteria that the tiers denote, behind those in `acc`.
pub open spec fn criteria_of(tiers: Seq<Seq<char>>, acc: Seq<SelectionCriterion>) -> Option<Seq<SelectionCriterion>>
    decreases tiers.len(),
{
    if tiers.len() == 0 {
        Some(acc)
    } else {
        match criterion_of(tiers[0]) {
            None => None,
            Some(c) => criteria_of(tiers.drop_first(), acc.push(c)),
        }
    }
}

/// The kinds of flaws that every order has to admit without a cap.
pub enum FlawKind {
    NonSeparable,
    Separable,
    Open,
}

/// The criterion admits the flaws of this kind, however many refinements they have.
pub open spec fn uncapped(c: SelectionCriterion, kind: FlawKind) -> bool {
    c.max_refinements == i32::MAX && (match kind {
        FlawKind::NonSeparable => c.non_separable,
        FlawKind::Separable => c.separable,
        FlawKind::Open => c.open_cond || c.local_open_cond,
    })
}

pub open spec fn some_uncapped(criteria: Seq<SelectionCriterion>, kind: FlawKind) -> bool {
    exists|i: int| 0 <= i < criteria.len() && uncapped(#[trigger] criteria[i], kind)
}

/// Each kind of flaw is admitted without a cap by some criterion: both kinds of
/// threats, and the open conditions (all or the local ones).
pub open spec fn complete(criteria: Seq<SelectionCriterion>) -> bool {
    &&& some_uncapped(criteria, FlawKind::NonSeparable)
    &&& some_uncapped(criteria, FlawKind::Separable)
    &&& some_uncapped(criteria, FlawKind::Open)
}

/// Whether the criteria that speak of threats have orders that rank them.
pub open spec fn suited(criteria: Seq<SelectionCriterion>) -> bool {
    forall|i: int| 0 <= i < criteria.len() && (#[trigger] criteria[i]).threats() ==> criteria[i].order.ranks_threats()
}

proof fn lemma_push_criterion(before: Seq<SelectionCriterion>, c: SelectionCriterion)
    ensures
        any_estimates(before.push(c)) == (any_estimates(before) || c.order.estimates()),
        forall|kind: FlawKind|
            #[trigger] some_uncapped(before.push(c), kind) == (some_uncapped(before, kind) || uncapped(c, kind)),
{
    let after = before.push(c);
    assert(after[before.len() as int] == c);
    if any_estimates(before) {
        let k = choose|k: int| 0 <= k < before.len() && (#[trigger] before[k]).order.estimates();
        assert(after[k].order.estimates());
    }
    if any_estimates(after) {
        let k = choose|k: int| 0 <= k < after.len() && (#[trigger] after[k]).order.estimates();
        if k < before.len() {
            assert(before[k].order.estimates());
        }
    }
    assert forall|kind: FlawKind| #[trigger] some_uncapped(after, kind) == (some_uncapped(before, kind) || uncapped(c, kind)) by {
        if some_uncapped(before, kind) {
            let k = choose|k: int| 0 <= k < before.len() && uncapped(#[trigger] before[k], kind);
            assert(uncapped(after[k], kind));
        }
        if some_uncapped(after, kind) {
            let k = choose|k: int| 0 <= k < after.len() && uncapped(#[trigger] after[k], kind);
            if k < before.len() {
                assert(uncapped(before[k], kind));
            }
        }
    }
}

/// The criteria that a text in the flaw-order syntax denotes: complete tiers.
pub open spec fn order_of(text: Seq<char>) -> Option<Seq<SelectionCriterion>> {
    match criteria_of(split(text, '/'), Seq::empty()) {
        Some(criteria) => if complete(criteria) {
            Some(criteria)
        } else {
            None
        },
        None => None,
    }
}

/// A predefined order stands for its expansion, any other text for itself.
pub open spec fn expanded(name: Seq<char>) -> Seq<char> {
    match alias_of(lower(name)) {
        Some(text) => text,
        None => name,
    }
}

fn names_letter(pieces: &Vec<Vec<char>>, c: char) -> (res: bool)
    requires
        flaw_letters(texts(pieces@)),
    ensures
        res == names(texts(pieces@), c),
{
    let ghost ps = texts(pieces@);
    let mut i: usize = 0;
    while i < pieces.len()
        invariant
            ps == texts(pieces@),
            flaw_letters(ps),
            i <= pieces@.len(),
            forall|k: int| 0 <= k < i ==> (#[trigger] ps[k])[0] != c,
        decreases pieces@.len() - i,
    {
        assert(ps[i as int] == pieces@[i as int]@);
        if pieces[i][0] == c {
            return true;
        }
        i = i + 1;
    }
    false
}

fn are_flaw_letters(pieces: &Vec<Vec<char>>) -> (res: bool)
    ensures
        res == flaw_letters(texts(pieces@)),
{
    let ghost ps = texts(pieces@);
    let mut i: usize = 0;
    while i < pieces.len()
        invariant
            ps == texts(pieces@),
            i <= pieces@.len(),
            forall|k: int| 0 <= k < i ==> (#[trigger] ps[k]).len() == 1 && flaw_letter(ps[k][0]),
        decreases pieces@.len() - i,
    {
        assert(ps[i as int] == pieces@[i as int]@);
        if pieces[i].len() != 1 {
            return false;
        }
        let c = pieces[i][0];
        if !(c == 'n' || c == 's' || c == 'o' || c == 'l' || c == 't' || c == 'u') {
            return false;
        }
        i = i + 1;
    }
    true
}

proof fn lemma_digits_end(s: Seq<char>, k: int)
    requires
        0 <= k <= s.len(),
        k < s.len() ==> !is_digit(s[k]),
        forall|i: int| 0 <= i < k ==> is_digit(s[i]),
    ensures
        digits_end(s) == k,
    decreases s.len(),
{
    if k > 0 {
        assert forall|i: int| 0 <= i < k - 1 implies is_digit(s.drop_first()[i]) by {
            assert(s.drop_first()[i] == s[i + 1]);
        }
        lemma_digits_end(s.drop_first(), k - 1);
    }
}

fn parse_cap(digits: &Vec<char>) -> (res: Option<i32>)
    requires
        all_digits(digits@),
    ensures
        res == cap_of(digits@),
{
    if digits.len() == 0 {
        return Some(i32::MAX);
    }
    assert(is_digit(digits@[0]));
    match parse_usize(digits) {
        Some(n) => {
            if n <= i32::MAX as usize {
                Some(n as i32)
            } else {
                None
            }
        },
        None => None,
    }
}

fn parse_criterion(s: &Vec<char>) -> (res: Option<SelectionCriterion>)
    ensures
        res == criterion_of(s@),
{
    assert(s@.skip(0) =~= s@);
    let close = find_from(s, '}', 0);
    if s.len() == 0 || s[0] != '{' || close >= s.len() {
        return None;
    }
    let inner = slice_of(s, 1, close);
    let pieces = split_on(&inner, ',');
    let mut end: usize = close + 1;
    while end < s.len() && '0' <= s[end] && s[end] <= '9'
        invariant
            close < end <= s@.len(),
            forall|k: int| close < k < end ==> is_digit(#[trigger] s@[k]),
        decreases s@.len() - end,
    {
        end = end + 1;
    }
    let digits = slice_of(s, close + 1, end);
    let key_text = slice_of(s, end, s.len());
    let key = lower_case(&key_text);
    proof {
        let rest = s@.skip(close + 1);
        let k = end - close - 1;
        assert forall|i: int| 0 <= i < k implies is_digit(rest[i]) by {
            assert(rest[i] == s@[close + 1 + i]);
        }
        lemma_digits_end(rest, k);
        assert(digits@ =~= rest.take(k));
        assert(key_text@ =~= rest.skip(k));
        assert(all_digits(digits@));
    }
    if !are_flaw_letters(&pieces) {
        return None;
    }
    let non_separable = names_letter(&pieces, 'n');
    let separable = names_letter(&pieces, 's');
    let open_cond = names_letter(&pieces, 'o');
    let local = names_letter(&pieces, 'l');
    let fixed = names_letter(&pieces, 't');
    let risky = names_letter(&pieces, 'u');
    let cap = match parse_cap(&digits) {
        Some(cap) => cap,
        None => {
            return None;
        },
    };
    match key_named(&key, non_separable || separable) {
        Some((order, reuse)) => Some(
            SelectionCriterion {
                non_separable,
                separable,
                open_cond,
                local_open_cond: !open_cond && local,
                static_open_cond: !open_cond && fixed,
                unsafe_open_cond: !open_cond && risky,
                max_refinements: cap,
                order,
                reuse,
            },
        ),
        None => None,
    }
}

/// A flaw-selection order: a sequence of selection criteria.
#[derive(Debug)]
pub struct FlawSelectionOrder {
    selection_criteria: Vec<SelectionCriterion>,
    needs_pg: bool,
}

/// Some criterion ranks by estimates.
pub open spec fn any_estimates(criteria: Seq<SelectionCriterion>) -> bool {
    exists|i: int| 0 <= i < criteria.len() && (#[trigger] criteria[i]).order.estimates()
}

/// The criteria of the `STATIC` order.
pub open spec fn static_tiers() -> Seq<SelectionCriterion> {
    let fixed = SelectionCriterion {
        non_separable: false,
        separable: false,
        open_cond: false,
        local_open_cond: false,
        static_open_cond: true,
        unsafe_open_cond: false,
        max_refinements: i32::MAX,
        order: OrderType::Lifo,
        reuse: false,
    };
    seq![
        fixed,
        SelectionCriterion { non_separable: true, separable: true, static_open_cond: false, ..fixed },
        SelectionCriterion { open_cond: true, static_open_cond: false, ..fixed },
    ]
}

/// The criteria of the `UCPOP` order.
pub open spec fn ucpop_tiers() -> Seq<SelectionCriterion> {
    let threats = SelectionCriterion {
        non_separable: true,
        separable: true,
        open_cond: false,
        local_open_cond: false,
        static_open_cond: false,
        unsafe_open_cond: false,
        max_refinements: i32::MAX,
        order: OrderType::Lifo,
        reuse: false,
    };
    seq![threats, SelectionCriterion { non_separable: false, separable: false, open_cond: true, ..threats }]
}

impl FlawSelectionOrder {
    /// The criteria, the most significant first.
    pub closed spec fn tiers(&self) -> Seq<SelectionCriterion> {
        self.selection_criteria@
    }

    #[verifier::type_invariant]
    spec fn coherent(&self) -> bool {
        &&& self.needs_pg == any_estimates(self.selection_criteria@)
        &&& complete(self.selection_criteria@)
        &&& suited(self.selection_criteria@)
    }

    /// Parses a flaw-selection-order name: expands predefined aliases to their
    /// criteria strings, then parses the `{flaws}[max]ORDER` grammar.
    pub fn parse(name: &str) -> (res: Result<FlawSelectionOrder, String>)
        ensures
            match (res, order_of(expanded(name@))) {
                (Ok(order), Some(criteria)) => order.tiers() == criteria,
                (Err(e), None) => e@ == "invalid flaw selection order `"@ + expanded(name@) + "'"@,
                _ => false,
            },
    {
        let chars = chars_of(name);
        let low = lower_case(&chars);
        match alias_named(&low) {
            Some(text) => Self::parse_criteria(text),
            None => Self::parse_criteria(name),
        }
    }

    fn parse_criteria(name: &str) -> (res: Result<FlawSelectionOrder, String>)
        ensures
            match (res, order_of(name@)) {
                (Ok(order), Some(criteria)) => order.tiers() == criteria,
                (Err(e), None) => e@ == "invalid flaw selection order `"@ + name@ + "'"@,
                _ => false,
            },
    {
        let mut err = String::from_str("invalid flaw selection order `");
        err.append(name);
        err.append("'");
        let chars = chars_of(name);
        let tiers = split_on(&chars, '/');
        let ghost ts = texts(tiers@);
        let mut criteria: Vec<SelectionCriterion> = Vec::new();
        let mut needs_pg = false;
        let mut free_n = false;
        let mut free_s = false;
        let mut free_o = false;
        let mut i: usize = 0;
        assert(ts.skip(0) =~= ts);
        while i < tiers.len()
            invariant
                ts == texts(tiers@),
                ts == split(name@, '/'),
                i <= tiers@.len(),
                err@ == "invalid flaw selection order `"@ + name@ + "'"@,
                criteria_of(ts, Seq::empty()) == criteria_of(ts.skip(i as int), criteria@),
                needs_pg == any_estimates(criteria@),
                suited(criteria@),
                free_n == some_uncapped(criteria@, FlawKind::NonSeparable),
                free_s == some_uncapped(criteria@, FlawKind::Separable),
                free_o == some_uncapped(criteria@, FlawKind::Open),
            decreases tiers@.len() - i,
        {
            assert(ts.skip(i as int)[0] == tiers@[i as int]@);
            assert(ts.skip(i as int).drop_first() =~= ts.skip(i + 1));
            match parse_criterion(&tiers[i]) {
                None => {
                    return Err(err);
                },
                Some(c) => {
                    if c.order.reads_estimates() {
                        needs_pg = true;
                    }
                    let free = c.max_refinements == i32::MAX;
                    free_n = free_n || (free && c.non_separable);
                    free_s = free_s || (free && c.separable);
                    free_o = free_o || (free && (c.open_cond || c.local_open_cond));
                    proof {
                        lemma_push_criterion(criteria@, c);
                    }
                    criteria.push(c);
                },
            }
            i = i + 1;
        }
        if !(free_n && free_s && free_o) {
            return Err(err);
        }
        Ok(FlawSelectionOrder { selection_criteria: criteria, needs_pg })
    }

    /// The `STATIC` order: static open conditions first, then threats and the
    /// remaining open conditions, the latest first.
    pub fn by_static() -> (res: FlawSelectionOrder)
        ensures
            res.tiers() == static_tiers(),
    {
        let fixed = SelectionCriterion {
            non_separable: false,
            separable: false,
            open_cond: false,
            local_open_cond: false,
            static_open_cond: true,
            unsafe_open_cond: false,
            max_refinements: i32::MAX,
            order: OrderType::Lifo,
            reuse: false,
        };
        let threats = SelectionCriterion { non_separable: true, separable: true, static_open_cond: false, ..fixed };
        let opens = SelectionCriterion { open_cond: true, static_open_cond: false, ..fixed };
        let mut selection_criteria: Vec<SelectionCriterion> = Vec::new();
        selection_criteria.push(fixed);
        selection_criteria.push(threats);
        selection_criteria.push(opens);
        proof {
            assert(selection_criteria@ =~= static_tiers());
            assert(uncapped(selection_criteria@[1], FlawKind::NonSeparable));
            assert(uncapped(selection_criteria@[1], FlawKind::Separable));
            assert(uncapped(selection_criteria@[2], FlawKind::Open));
        }
        FlawSelectionOrder { selection_criteria, needs_pg: false }
    }

    /// The `UCPOP` order: threats before open conditions, the latest first.
    pub fn by_ucpop() -> (res: FlawSelectionOrder)
        ensures
            res.tiers() == ucpop_tiers(),
    {
        let threats = SelectionCriterion {
            non_separable: true,
            separable: true,
            open_cond: false,
            local_open_cond: false,
            static_open_cond: false,
            unsafe_open_cond: false,
            max_refinements: i32::MAX,
            order: OrderType::Lifo,
            reuse: false,
        };
        let opens = SelectionCriterion { non_separable: false, separable: false, open_cond: true, ..threats };
        let mut selection_criteria: Vec<SelectionCriterion> = Vec::new();
        selection_criteria.push(threats);
        selection_criteria.push(opens);
        proof {
            assert(selection_criteria@ =~= ucpop_tiers());
            assert(uncapped(selection_criteria@[0], FlawKind::NonSeparable));
            assert(uncapped(selection_criteria@[0], FlawKind::Separable));
            assert(uncapped(selection_criteria@[1], FlawKind::Open));
        }
        FlawSelectionOrder { selection_criteria, needs_pg: false }
    }

    /// Whether some criterion ranks by planning-graph estimates.
    pub fn needs_planning_graph(&self) -> (res: bool)
        ensures
            res == any_estimates(self.tiers()),
    {
        proof {
            use_type_invariant(self);
        }
        self.needs_pg
    }

    /// Parsed criteria for search representations that implement their own
    /// flaw objects.
    pub fn criteria(&self) -> (res: &Vec<SelectionCriterion>)
        ensures
            res@ == self.tiers(),
            complete(res@),
            suited(res@),
    {
        proof {
            use_type_invariant(self);
        }
        &self.selection_criteria
    }
}

} // verus!
