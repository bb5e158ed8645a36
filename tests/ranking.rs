use issuer_rank::aggregate::aggregate;
use issuer_rank::order::{is_better, stable_order};
use issuer_rank::pipeline::rank_issuers;
use issuer_rank::ranker::{collect_and_sort, generate_score_for_factor};
use issuer_rank::record::{Factor, IssuerDetail};

fn issuer(name: &str, pe: i64, mar_cap: i64) -> IssuerDetail {
    IssuerDetail {
        name: name.to_string(),
        cmp: 0,
        pe,
        mar_cap,
        div_yld: 0,
        np_qtr: 0,
        sales_qtr: 0,
        roce: 0,
        sales_var_5yrs: 0,
        free_cash_flow: 0,
        debt_per_eq: 0,
        roe: 0,
        eps_12m: 0,
        profit_growth: 0,
        opm: 0,
        opm_5yrs: 0,
        piotski_scr: 0,
    }
}

fn three_issuers() -> Vec<IssuerDetail> {
    vec![issuer("A", 10, 100), issuer("B", 20, 300), issuer("C", 15, 200)]
}

fn pairs(v: &[(&str, i32)]) -> Vec<(String, i32)> {
    v.iter().map(|(n, s)| (n.to_string(), *s)).collect()
}

fn totals(v: &[(&str, i64)]) -> Vec<(String, i64)> {
    v.iter().map(|(n, s)| (n.to_string(), *s)).collect()
}

fn sorted_by_name(mut v: Vec<(String, i64)>) -> Vec<(String, i64)> {
    v.sort();
    v
}

#[test]
fn lower_price_earnings_ranks_first() {
    let r = collect_and_sort(&three_issuers(), Factor::Pe, false);
    assert_eq!(r, pairs(&[("A", 10), ("C", 9), ("B", 8)]));
}

#[test]
fn higher_market_cap_ranks_first() {
    let r = collect_and_sort(&three_issuers(), Factor::MarCap, true);
    assert_eq!(r, pairs(&[("B", 10), ("C", 9), ("A", 8)]));
}

#[test]
fn two_factor_totals_tie_in_first_seen_order() {
    let records = three_issuers();
    let pe = collect_and_sort(&records, Factor::Pe, false);
    let mc = collect_and_sort(&records, Factor::MarCap, true);
    let r = aggregate(&vec![pe, mc]);
    assert_eq!(r, totals(&[("A", 18), ("C", 18), ("B", 18)]));
}

#[test]
fn twelfth_record_scores_minus_one() {
    let records: Vec<IssuerDetail> = (0..12).map(|i| issuer(&format!("I{}", i), i, 0)).collect();
    let r = collect_and_sort(&records, Factor::Pe, false);
    assert_eq!(r.len(), 12);
    assert_eq!(r[11], ("I11".to_string(), -1));
    assert_eq!(r[10], ("I10".to_string(), 0));
    let agg = aggregate(&vec![r.clone(), r]);
    assert_eq!(agg[11], ("I11".to_string(), -2));
    assert_eq!(agg[0], ("I0".to_string(), 20));
}

#[test]
fn ranking_keeps_every_identity_once() {
    let records = vec![
        issuer("X", 5, 1),
        issuer("Y", -3, 7),
        issuer("Z", 5, 2),
        issuer("W", 0, 0),
    ];
    let r = collect_and_sort(&records, Factor::Pe, true);
    let mut got: Vec<String> = r.iter().map(|e| e.0.clone()).collect();
    got.sort();
    assert_eq!(got, vec!["W", "X", "Y", "Z"]);
}

#[test]
fn best_value_scores_ten() {
    let records = vec![issuer("P", 4, 9), issuer("Q", 2, 11), issuer("R", 7, 3)];
    let desc = collect_and_sort(&records, Factor::MarCap, true);
    assert_eq!(desc[0], ("Q".to_string(), 10));
    let asc = collect_and_sort(&records, Factor::Pe, false);
    assert_eq!(asc[0], ("Q".to_string(), 10));
    let asc_cap = collect_and_sort(&records, Factor::MarCap, false);
    assert_eq!(asc_cap[0], ("R".to_string(), 10));
}

#[test]
fn equal_values_keep_input_order() {
    let records = vec![issuer("M", 1, 5), issuer("N", 1, 5), issuer("O", 0, 5)];
    let r = collect_and_sort(&records, Factor::Pe, true);
    assert_eq!(r, pairs(&[("M", 10), ("N", 9), ("O", 8)]));
    let r = collect_and_sort(&records, Factor::MarCap, false);
    assert_eq!(r, pairs(&[("M", 10), ("N", 9), ("O", 8)]));
}

#[test]
fn factor_order_does_not_change_totals() {
    let records = vec![
        issuer("A", 3, 10),
        issuer("B", 1, 30),
        issuer("C", 2, 20),
        issuer("D", 4, 40),
    ];
    let pe = collect_and_sort(&records, Factor::Pe, false);
    let mc = collect_and_sort(&records, Factor::MarCap, true);
    let cmp = collect_and_sort(&records, Factor::Cmp, false);
    let one = aggregate(&vec![pe.clone(), mc.clone(), cmp.clone()]);
    let two = aggregate(&vec![cmp, pe, mc]);
    assert_eq!(sorted_by_name(one), sorted_by_name(two.clone()));
    assert_eq!(
        sorted_by_name(two),
        totals(&[("A", 25), ("B", 28), ("C", 25), ("D", 24)])
    );
}

#[test]
fn single_factor_round_trip() {
    let records = vec![issuer("A", 3, 0), issuer("B", 1, 0), issuer("C", 2, 0)];
    let pe = collect_and_sort(&records, Factor::Pe, false);
    let r = aggregate(&vec![pe.clone()]);
    let expected: Vec<(String, i64)> = pe.iter().map(|(n, s)| (n.clone(), *s as i64)).collect();
    assert_eq!(r, expected);
    assert_eq!(r, totals(&[("B", 10), ("C", 9), ("A", 8)]));
}

#[test]
fn aggregate_merges_by_identity() {
    let a = pairs(&[("A", 5), ("B", -2)]);
    let b = pairs(&[("B", 9), ("C", 1), ("A", -7)]);
    let r = aggregate(&vec![a, b]);
    assert_eq!(r, totals(&[("B", 7), ("C", 1), ("A", -2)]));
}

#[test]
fn aggregate_of_nothing_is_empty() {
    assert!(aggregate(&vec![]).is_empty());
    assert!(aggregate(&vec![vec![], vec![]]).is_empty());
}

#[test]
fn ranking_of_no_records_is_empty() {
    assert!(collect_and_sort(&vec![], Factor::Roe, true).is_empty());
}

#[test]
fn scores_count_down_from_ten() {
    let input: Vec<(String, i64)> = (0..13).map(|i| (format!("S{}", i), 100 - i)).collect();
    let r = generate_score_for_factor(&input);
    let scores: Vec<i32> = r.iter().map(|e| e.1).collect();
    assert_eq!(scores, vec![10, 9, 8, 7, 6, 5, 4, 3, 2, 1, 0, -1, -2]);
    assert_eq!(r[12].0, "S12");
}

#[test]
fn stable_order_sorts_indices() {
    assert_eq!(stable_order(&vec![5, 1, 5, 3], false), vec![1, 3, 0, 2]);
    assert_eq!(stable_order(&vec![5, 1, 5, 3], true), vec![0, 2, 3, 1]);
    assert_eq!(stable_order(&vec![i64::MIN, i64::MAX], true), vec![1, 0]);
    assert!(is_better(2, 1, true));
    assert!(!is_better(2, 1, false));
    assert!(!is_better(1, 1, true));
}

#[test]
fn factors_and_directions() {
    let all = Factor::all();
    assert_eq!(all.len(), 15);
    assert_eq!(all[0], Factor::Cmp);
    assert_eq!(all[14], Factor::PiotskiScr);
    let ascending: Vec<Factor> = all.iter().copied().filter(|f| !f.descending()).collect();
    assert_eq!(ascending, vec![Factor::Cmp, Factor::Pe, Factor::DebtPerEq]);
    let r = issuer("A", 7, 8);
    assert_eq!(Factor::Pe.value(&r), 7);
    assert_eq!(Factor::MarCap.value(&r), 8);
}

#[test]
fn composite_ranking_over_all_factors() {
    let r = rank_issuers(&three_issuers());
    assert_eq!(r, totals(&[("A", 148), ("B", 135), ("C", 122)]));
}
