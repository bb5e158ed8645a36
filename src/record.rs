//! Issuer records and the fixed set of ranking factors.
use vstd::prelude::*;

verus! {

/// One issuer and its metrics. Each metric is held as an ordered integer key: any
/// encoding of the source figures that keeps their order will do, since ranking only
/// compares them.
pub struct IssuerDetail {
    pub name: String,
    pub cmp: i64,
    pub pe: i64,
    pub mar_cap: i64,
    pub div_yld: i64,
    pub np_qtr: i64,
    pub sales_qtr: i64,
    pub roce: i64,
    pub sales_var_5yrs: i64,
    pub free_cash_flow: i64,
    pub debt_per_eq: i64,
    pub roe: i64,
    pub eps_12m: i64,
    pub profit_growth: i64,
    pub opm: i64,
    pub opm_5yrs: i64,
    pub piotski_scr: i64,
}

/// A metric that issuers are ranked on.
#[derive(Clone, Copy, Debug, PartialEq, Eq, Structural)]
pub enum Factor {
    Cmp,
    Pe,
    MarCap,
    DivYld,
    NpQtr,
    SalesQtr,
    Roce,
    SalesVar5Yrs,
    DebtPerEq,
    Roe,
    Eps12M,
    ProfitGrowth,
    Opm,
    Opm5Yrs,
    PiotskiScr,
}

/// The metric of `r` that `f` names.
pub open spec fn factor_value(f: Factor, r: IssuerDetail) -> i64 {
    match f {
        Factor::Cmp => r.cmp,
        Factor::Pe => r.pe,
        Factor::MarCap => r.mar_cap,
        Factor::DivYld => r.div_yld,
        Factor::NpQtr => r.np_qtr,
        Factor::SalesQtr => r.sales_qtr,
        Factor::Roce => r.roce,
        Factor::SalesVar5Yrs => r.sales_var_5yrs,
        Factor::DebtPerEq => r.debt_per_eq,
        Factor::Roe => r.roe,
        Factor::Eps12M => r.eps_12m,
        Factor::ProfitGrowth => r.profit_growth,
        Factor::Opm => r.opm,
        Factor::Opm5Yrs => r.opm_5yrs,
        Factor::PiotskiScr => r.piotski_scr,
    }
}

/// Whether a higher value of `f` is better: false for the current price, the
/// price/earnings ratio and the debt/equity ratio, true for every other factor.
pub open spec fn factor_descending(f: Factor) -> bool {
    !(f == Factor::Cmp || f == Factor::Pe || f == Factor::DebtPerEq)
}

/// Every factor, in the order in which the composite ranking applies them.
pub open spec fn all_factors() -> Seq<Factor> {
    seq![
        Factor::Cmp,
        Factor::Pe,
        Factor::MarCap,
        Factor::DivYld,
        Factor::NpQtr,
        Factor::SalesQtr,
        Factor::Roce,
        Factor::SalesVar5Yrs,
        Factor::DebtPerEq,
        Factor::Roe,
        Factor::Eps12M,
        Factor::ProfitGrowth,
        Factor::Opm,
        Factor::Opm5Yrs,
        Factor::PiotskiScr,
    ]
}

impl Factor {
    /// The metric of `r` that this factor names.
    pub fn value(&self, r: &IssuerDetail) -> (v: i64)
        ensures
            v == factor_value(*self, *r),
    {
        match self {
            Factor::Cmp => r.cmp,
            Factor::Pe => r.pe,
            Factor::MarCap => r.mar_cap,
            Factor::DivYld => r.div_yld,
            Factor::NpQtr => r.np_qtr,
            Factor::SalesQtr => r.sales_qtr,
            Factor::Roce => r.roce,
            Factor::SalesVar5Yrs => r.sales_var_5yrs,
            Factor::DebtPerEq => r.debt_per_eq,
            Factor::Roe => r.roe,
            Factor::Eps12M => r.eps_12m,
            Factor::ProfitGrowth => r.profit_growth,
            Factor::Opm => r.opm,
            Factor::Opm5Yrs => r.opm_5yrs,
            Factor::PiotskiScr => r.piotski_scr,
        }
    }

    /// Whether a higher value of this factor is better.
    pub fn descending(&self) -> (d: bool)
        ensures
            d == factor_descending(*self),
    {
        match self {
            Factor::Cmp | Factor::Pe | Factor::DebtPerEq => false,
            _ => true,
        }
    }

    /// Every factor, in the order in which the composite ranking applies them.
    pub fn all() -> (v: Vec<Factor>)
        ensures
            v@ == all_factors(),
    {
        let v = vec![
            Factor::Cmp,
            Factor::Pe,
            Factor::MarCap,
            Factor::DivYld,
            Factor::NpQtr,
            Factor::SalesQtr,
            Factor::Roce,
            Factor::SalesVar5Yrs,
            Factor::DebtPerEq,
            Factor::Roe,
            Factor::Eps12M,
            Factor::ProfitGrowth,
            Factor::Opm,
            Factor::Opm5Yrs,
            Factor::PiotskiScr,
        ];
        assert(v@ =~= all_factors());
        v
    }
}

} // verus!
