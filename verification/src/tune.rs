//! Search parameters: the values the engine plays with, and a set that can be varied while the
//! engine runs, for measuring.
use vstd::prelude::*;
use crate::text::{is_ignoring_case, lowered_text};

verus! {

/// Reverse futility margin per ply.
pub const RFP_MARGIN: i32 = 120;

/// Null-move reduction, constant part.
pub const NMP_BASE: i32 = 3;

/// Null-move reduction, depth divisor.
pub const NMP_DIV: i32 = 5;

/// Late-move-pruning schedule offset.
pub const LMP_BASE: i32 = 3;

/// Reduction table intercept, times 100.
pub const LMR_BASE: i32 = 75;

/// Reduction table divisor, times 100.
pub const LMR_DIV: i32 = 225;

/// History units per ply of reduction.
pub const HIST_LMR_DIV: i32 = 512;

/// History bonus per squared ply.
pub const HIST_BONUS_MUL: i32 = 4;

pub const HIST_BONUS_MAX: i32 = 1600;

/// A set of parameters.
#[derive(Clone, Copy, PartialEq, Eq, Structural, Debug)]
pub struct Params {
    pub rfp_margin: i32,
    pub nmp_base: i32,
    pub nmp_div: i32,
    pub lmp_base: i32,
    pub lmr_base: i32,
    pub lmr_div: i32,
    pub hist_lmr_div: i32,
    pub hist_bonus_mul: i32,
    pub hist_bonus_max: i32,
}

impl Default for Params {
    fn default() -> (r: Params)
        ensures
            r == default_params(),
    {
        Params {
            rfp_margin: RFP_MARGIN,
            nmp_base: NMP_BASE,
            nmp_div: NMP_DIV,
            lmp_base: LMP_BASE,
            lmr_base: LMR_BASE,
            lmr_div: LMR_DIV,
            hist_lmr_div: HIST_LMR_DIV,
            hist_bonus_mul: HIST_BONUS_MUL,
            hist_bonus_max: HIST_BONUS_MAX,
        }
    }
}

pub open spec fn default_params() -> Params {
    Params {
        rfp_margin: RFP_MARGIN,
        nmp_base: NMP_BASE,
        nmp_div: NMP_DIV,
        lmp_base: LMP_BASE,
        lmr_base: LMR_BASE,
        lmr_div: LMR_DIV,
        hist_lmr_div: HIST_LMR_DIV,
        hist_bonus_mul: HIST_BONUS_MUL,
        hist_bonus_max: HIST_BONUS_MAX,
    }
}

pub open spec fn at_least_one(x: i32) -> i32 {
    if x < 1 {
        1
    } else {
        x
    }
}

fn positive(x: i32) -> (r: i32)
    ensures
        r == at_least_one(x),
{
    if x < 1 {
        1
    } else {
        x
    }
}

pub fn rfp_margin(p: &Params) -> (r: i32)
    ensures
        r == p.rfp_margin,
{
    p.rfp_margin
}

pub fn nmp_base(p: &Params) -> (r: i32)
    ensures
        r == p.nmp_base,
{
    p.nmp_base
}

pub fn nmp_div(p: &Params) -> (r: i32)
    ensures
        r == at_least_one(p.nmp_div),
{
    positive(p.nmp_div)
}

pub fn lmp_base(p: &Params) -> (r: i32)
    ensures
        r == p.lmp_base,
{
    p.lmp_base
}

pub fn lmr_base(p: &Params) -> (r: i32)
    ensures
        r == p.lmr_base,
{
    p.lmr_base
}

pub fn lmr_div(p: &Params) -> (r: i32)
    ensures
        r == at_least_one(p.lmr_div),
{
    positive(p.lmr_div)
}

pub fn hist_lmr_div(p: &Params) -> (r: i32)
    ensures
        r == at_least_one(p.hist_lmr_div),
{
    positive(p.hist_lmr_div)
}

pub fn hist_bonus_mul(p: &Params) -> (r: i32)
    ensures
        r == at_least_one(p.hist_bonus_mul),
{
    positive(p.hist_bonus_mul)
}

pub fn hist_bonus_max(p: &Params) -> (r: i32)
    ensures
        r == at_least_one(p.hist_bonus_max),
{
    positive(p.hist_bonus_max)
}

/// The parameters by name, each with its default and the least and greatest value worth trying.
pub const PARAMS: [(&'static str, i32, i32, i32); 9] = [
    ("RfpMargin", 120, 40, 240),
    ("NmpBase", 3, 1, 6),
    ("NmpDiv", 5, 2, 12),
    ("LmpBase", 3, 1, 8),
    ("LmrBase", 75, 20, 150),
    ("LmrDiv", 225, 120, 400),
    ("HistLmrDiv", 512, 64, 4096),
    ("HistBonusMul", 4, 1, 32),
    ("HistBonusMax", 1600, 200, 8000),
];

/// A name is one of a parameter's spellings.
pub open spec fn named(name: Seq<char>, text: Seq<char>) -> bool {
    lowered_text(name) == lowered_text(text)
}

/// The parameters after `name` was set to `v`, if there is such a parameter.
pub open spec fn after_set(p: Params, name: Seq<char>, v: i32) -> Option<Params> {
    if named(name, "RfpMargin"@) {
        Some(Params { rfp_margin: v, ..p })
    } else if named(name, "NmpBase"@) {
        Some(Params { nmp_base: v, ..p })
    } else if named(name, "NmpDiv"@) {
        Some(Params { nmp_div: v, ..p })
    } else if named(name, "LmpBase"@) {
        Some(Params { lmp_base: v, ..p })
    } else if named(name, "LmrBase"@) {
        Some(Params { lmr_base: v, ..p })
    } else if named(name, "LmrDiv"@) {
        Some(Params { lmr_div: v, ..p })
    } else if named(name, "HistLmrDiv"@) {
        Some(Params { hist_lmr_div: v, ..p })
    } else if named(name, "HistBonusMul"@) {
        Some(Params { hist_bonus_mul: v, ..p })
    } else if named(name, "HistBonusMax"@) {
        Some(Params { hist_bonus_max: v, ..p })
    } else {
        None
    }
}

/// Sets a parameter by its name, whatever the case. Says whether there is one of that name.
pub fn set(p: &mut Params, name: &Vec<char>, v: i32) -> (r: bool)
    ensures
        r == (after_set(*old(p), name@, v) is Some),
        *final(p) == (match after_set(*old(p), name@, v) {
            Some(q) => q,
            None => *old(p),
        }),
{
    if is_ignoring_case(name, "RfpMargin") {
        p.rfp_margin = v;
    } else if is_ignoring_case(name, "NmpBase") {
        p.nmp_base = v;
    } else if is_ignoring_case(name, "NmpDiv") {
        p.nmp_div = v;
    } else if is_ignoring_case(name, "LmpBase") {
        p.lmp_base = v;
    } else if is_ignoring_case(name, "LmrBase") {
        p.lmr_base = v;
    } else if is_ignoring_case(name, "LmrDiv") {
        p.lmr_div = v;
    } else if is_ignoring_case(name, "HistLmrDiv") {
        p.hist_lmr_div = v;
    } else if is_ignoring_case(name, "HistBonusMul") {
        p.hist_bonus_mul = v;
    } else if is_ignoring_case(name, "HistBonusMax") {
        p.hist_bonus_max = v;
    } else {
        return false;
    }
    true
}

// ---------------- laws ----------------
/// Setting a parameter changes the one that is named, without regard to case, and leaves the others
/// as they are; an unknown name sets nothing.
pub proof fn law_setting_changes_what_is_named(p: Params, name: Seq<char>, v: i32)
    ensures
        match after_set(p, name, v) {
            Some(q) => {
                &&& q.rfp_margin != p.rfp_margin ==> named(name, "RfpMargin"@) && q.rfp_margin == v
                &&& q.nmp_base != p.nmp_base ==> named(name, "NmpBase"@) && q.nmp_base == v
                &&& q.nmp_div != p.nmp_div ==> named(name, "NmpDiv"@) && q.nmp_div == v
                &&& q.lmp_base != p.lmp_base ==> named(name, "LmpBase"@) && q.lmp_base == v
                &&& q.lmr_base != p.lmr_base ==> named(name, "LmrBase"@) && q.lmr_base == v
                &&& q.lmr_div != p.lmr_div ==> named(name, "LmrDiv"@) && q.lmr_div == v
                &&& q.hist_lmr_div != p.hist_lmr_div ==> named(name, "HistLmrDiv"@) && q.hist_lmr_div == v
                &&& q.hist_bonus_mul != p.hist_bonus_mul ==> named(name, "HistBonusMul"@) && q.hist_bonus_mul == v
                &&& q.hist_bonus_max != p.hist_bonus_max ==> named(name, "HistBonusMax"@) && q.hist_bonus_max == v
                &&& after_set(q, name, v) == Some(q)
            },
            None => !named(name, "RfpMargin"@) && !named(name, "NmpBase"@) && !named(name, "NmpDiv"@) && !named(name, "LmpBase"@)
                && !named(name, "LmrBase"@) && !named(name, "LmrDiv"@) && !named(name, "HistLmrDiv"@) && !named(name, "HistBonusMul"@)
                && !named(name, "HistBonusMax"@),
        },
{
}

/// Divisors and factors are never below one.
pub proof fn law_factors_are_positive(x: i32)
    ensures
        at_least_one(x) >= 1,
        x >= 1 ==> at_least_one(x) == x,
        x <= 1 ==> at_least_one(x) == 1,
{
}

/// A parameter starts at the default that is announced for it, within the range announced.
pub proof fn law_defaults_are_as_announced(k: int)
    requires
        0 <= k < 9,
    ensures
        PARAMS@[k].2 <= PARAMS@[k].1 <= PARAMS@[k].3,
        default_params().rfp_margin == PARAMS@[0].1,
        default_params().nmp_base == PARAMS@[1].1,
        default_params().nmp_div == PARAMS@[2].1,
        default_params().lmp_base == PARAMS@[3].1,
        default_params().lmr_base == PARAMS@[4].1,
        default_params().lmr_div == PARAMS@[5].1,
        default_params().hist_lmr_div == PARAMS@[6].1,
        default_params().hist_bonus_mul == PARAMS@[7].1,
        default_params().hist_bonus_max == PARAMS@[8].1,
{
}

} // verus!
