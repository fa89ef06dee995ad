use std::str::FromStr;

use flash_utils::cpu::CpuRange;
use flash_utils::{CpuSetSize, UtilError};

fn avail(n: usize) -> Option<Vec<usize>> {
    Some((0..n).collect())
}

fn next(c: &mut CpuRange) -> Option<usize> {
    c.next_core().map(|s| s.core_id())
}

fn parse(s: &str, ids: Option<Vec<usize>>) -> Result<Vec<usize>, UtilError> {
    CpuRange::from_str_with_core_ids(s, ids).map(|c| c.cores().clone())
}

#[test]
fn parse_single_range() {
    assert_eq!(parse("0-3", avail(8)).unwrap(), vec![0, 1, 2, 3]);
}

#[test]
fn parse_list_of_cores() {
    assert_eq!(parse("1,3,5", avail(8)).unwrap(), vec![1, 3, 5]);
}

#[test]
fn parse_mixed_items_keep_order_and_duplicates() {
    assert_eq!(parse("6,0-2,1", avail(8)).unwrap(), vec![6, 0, 1, 2, 1]);
}

#[test]
fn parse_trims_whitespace_around_numbers() {
    assert_eq!(parse(" 2 - 4 ", avail(8)).unwrap(), vec![2, 3, 4]);
    assert_eq!(parse("\t7\n", avail(8)).unwrap(), vec![7]);
}

#[test]
fn parse_accepts_plus_sign_and_leading_zeros() {
    assert_eq!(parse("+3", avail(8)).unwrap(), vec![3]);
    assert_eq!(parse("003-+4", avail(8)).unwrap(), vec![3, 4]);
}

#[test]
fn parse_one_element_range() {
    assert_eq!(parse("5-5", avail(8)).unwrap(), vec![5]);
}

#[test]
fn parse_reversed_range_is_invalid() {
    match parse("5-3", avail(8)) {
        Err(UtilError::InvalidCpuCoreRange(s)) => assert_eq!(s, "5-3"),
        other => panic!("unexpected {other:?}"),
    }
}

#[test]
fn parse_invalid_item_keeps_its_untrimmed_text() {
    match parse("1, x ,2", avail(8)) {
        Err(UtilError::InvalidCpuCoreRange(s)) => assert_eq!(s, " x "),
        other => panic!("unexpected {other:?}"),
    }
}

#[test]
fn parse_empty_text_is_invalid() {
    match parse("", avail(8)) {
        Err(UtilError::InvalidCpuCoreRange(s)) => assert_eq!(s, ""),
        other => panic!("unexpected {other:?}"),
    }
}

#[test]
fn parse_empty_item_is_invalid() {
    match parse("1,,2", avail(8)) {
        Err(UtilError::InvalidCpuCoreRange(s)) => assert_eq!(s, ""),
        other => panic!("unexpected {other:?}"),
    }
}

#[test]
fn parse_negative_number_is_invalid() {
    match parse("-1", avail(8)) {
        Err(UtilError::InvalidCpuCoreRange(s)) => assert_eq!(s, "-1"),
        other => panic!("unexpected {other:?}"),
    }
}

#[test]
fn parse_overflowing_number_is_invalid() {
    match parse("99999999999999999999999", avail(8)) {
        Err(UtilError::InvalidCpuCoreRange(s)) => assert_eq!(s, "99999999999999999999999"),
        other => panic!("unexpected {other:?}"),
    }
}

#[test]
fn parse_unavailable_core() {
    match parse("2,9", avail(8)) {
        Err(UtilError::CpuCoreNotFound(c)) => assert_eq!(c, 9),
        other => panic!("unexpected {other:?}"),
    }
}

#[test]
fn parse_range_reports_first_missing_core() {
    let ids = Some(vec![0, 1, 2, 3, 4, 6, 8]);
    match parse("2-9", ids) {
        Err(UtilError::CpuCoreNotFound(c)) => assert_eq!(c, 5),
        other => panic!("unexpected {other:?}"),
    }
}

#[test]
fn parse_first_failing_item_decides() {
    match parse("1,x,99", avail(4)) {
        Err(UtilError::InvalidCpuCoreRange(s)) => assert_eq!(s, "x"),
        other => panic!("unexpected {other:?}"),
    }
    match parse("1,99,x", avail(4)) {
        Err(UtilError::CpuCoreNotFound(c)) => assert_eq!(c, 99),
        other => panic!("unexpected {other:?}"),
    }
}

#[test]
fn parse_without_cores_fails() {
    assert!(matches!(parse("0", None), Err(UtilError::NoCpuCores)));
    assert!(matches!(parse("0", Some(vec![])), Err(UtilError::NoCpuCores)));
}

#[test]
fn parse_starts_at_first_core() {
    let mut c = CpuRange::from_str_with_core_ids("4,5", avail(8)).unwrap();
    assert_eq!(next(&mut c), Some(4));
}

#[test]
fn text_of_runs() {
    let c = CpuRange::from_core_ids(Some(vec![0, 1, 2, 3, 8, 10, 11])).unwrap();
    assert_eq!(c.to_string(), "0-3,8,10-11");
}

#[test]
fn text_of_single_and_empty() {
    assert_eq!(CpuRange::from_core_ids(Some(vec![5])).unwrap().to_string(), "5");
    assert_eq!(CpuRange::default().to_string(), "");
}

#[test]
fn text_of_unsorted_list() {
    let c = CpuRange::from_core_ids(Some(vec![3, 2, 1, 1, 2, 12, 13, 14])).unwrap();
    assert_eq!(c.to_string(), "3,2,1,1-2,12-14");
}

#[test]
fn text_of_large_numbers() {
    let c = CpuRange::from_core_ids(Some(vec![1021, 1022, 1023, 0])).unwrap();
    assert_eq!(c.to_string(), "1021-1023,0");
}

#[test]
fn text_reads_back_as_the_same_list() {
    let lists: Vec<Vec<usize>> = vec![
        vec![0],
        vec![0, 1, 2, 3, 8, 10, 11],
        vec![7, 6, 5],
        vec![1, 2, 1, 2],
        vec![15, 3, 4, 5, 0],
    ];
    for cores in lists {
        let c = CpuRange::from_core_ids(Some(cores.clone())).unwrap();
        let text = c.to_string();
        assert_eq!(parse(&text, avail(16)).unwrap(), cores, "text {text}");
    }
}

#[test]
fn from_str_trait_matches_inherent() {
    let a = <CpuRange as FromStr>::from_str("0");
    let b = CpuRange::from_str("0");
    assert_eq!(a.is_ok(), b.is_ok());
}

#[test]
fn round_robin_cycles_through_cores() {
    let mut c = CpuRange::from_core_ids(Some(vec![2, 4, 6])).unwrap();
    let got: Vec<Option<usize>> = (0..7).map(|_| next(&mut c)).collect();
    assert_eq!(
        got,
        vec![Some(2), Some(4), Some(6), Some(2), Some(4), Some(6), Some(2)]
    );
}

#[test]
fn next_cores_equals_successive_next_core() {
    let mut a = CpuRange::from_core_ids(Some(vec![1, 3, 5, 7])).unwrap();
    let mut b = a.clone();
    next(&mut a);
    next(&mut b);
    let batch: Vec<Option<usize>> = a.next_cores(6).into_iter().map(|s| s.map(|s| s.core_id())).collect();
    let single: Vec<Option<usize>> = (0..6).map(|_| next(&mut b)).collect();
    assert_eq!(batch, single);
    assert_eq!(batch, vec![Some(3), Some(5), Some(7), Some(1), Some(3), Some(5)]);
    assert_eq!(next(&mut a), next(&mut b));
}

#[test]
fn round_robin_period_returns_to_start() {
    let mut c = CpuRange::from_core_ids(Some(vec![9, 8, 7])).unwrap();
    next(&mut c);
    let first = next(&mut c.clone());
    c.next_cores(3);
    assert_eq!(next(&mut c), first);
}

#[test]
fn empty_list_hands_out_nothing() {
    let mut c = CpuRange::default();
    assert_eq!(next(&mut c), None);
    assert!(c.next_cores(3).iter().all(|s| s.is_none()));
    assert_eq!(c.next_cores(3).len(), 3);
    assert_eq!(c.core_count(), 0);
}

#[test]
fn reset_starts_again_from_first_core() {
    let mut c = CpuRange::from_core_ids(Some(vec![0, 1, 2])).unwrap();
    next(&mut c);
    next(&mut c);
    c.reset();
    assert_eq!(next(&mut c), Some(0));
}

#[test]
fn set_affinity_next_advances() {
    let mut c = CpuRange::from_core_ids(Some(vec![4, 5])).unwrap();
    assert_eq!(c.set_affinity_next().core_id(), 4);
    assert_eq!(c.set_affinity_next().core_id(), 5);
    assert_eq!(c.set_affinity_next().core_id(), 4);
}

#[test]
fn from_core_ids_accepts_empty_but_all_does_not() {
    assert_eq!(CpuRange::from_core_ids(Some(vec![])).unwrap().core_count(), 0);
    assert!(matches!(CpuRange::from_core_ids(None), Err(UtilError::NoCpuCores)));
    assert!(matches!(CpuRange::all_from_core_ids(Some(vec![])), Err(UtilError::NoCpuCores)));
    assert!(matches!(CpuRange::all_from_core_ids(None), Err(UtilError::NoCpuCores)));
    assert_eq!(
        CpuRange::all_from_core_ids(Some(vec![0, 2])).unwrap().cores(),
        &vec![0, 2]
    );
}

#[test]
fn machine_cores_are_increasing_and_parse_back() {
    // Where the machine reports no cores (a restricted container), there is nothing to check.
    let Ok(c) = CpuRange::all() else { return };
    let cores = c.cores().clone();
    assert!(!cores.is_empty());
    assert!(cores.windows(2).all(|w| w[0] < w[1]));
    let n = CpuRange::new().unwrap();
    assert_eq!(n.cores(), &cores);
    let text = c.to_string();
    let parsed = CpuRange::from_str(&text).unwrap();
    assert_eq!(parsed.cores(), &cores);
}

#[test]
fn pinning_hands_the_setters_core_to_the_system() {
    let Ok(mut c) = CpuRange::all() else { return };
    let setter = c.set_affinity_next();
    let core = setter.core_id();
    let (_, handed) = setter.call(&CpuSetSize::platform());
    assert_eq!(handed, Some(core));
}

#[test]
fn pinning_to_a_core_past_the_cpu_set_is_refused() {
    let mut c = CpuRange::from_core_ids(Some(vec![1_000_000])).unwrap();
    let setter = c.set_affinity_next();
    assert_eq!(setter.core_id(), 1_000_000);
    assert_eq!(setter.call(&CpuSetSize::platform()), (false, None));
}

#[test]
fn round_robin_setters_pin_the_chosen_cores() {
    let ids: Option<Vec<usize>> = Some((0..=7).collect());
    let mut c = CpuRange::from_str_with_core_ids("2-4", ids).unwrap();
    let set = CpuSetSize::platform();
    let handed: Vec<Option<usize>> = (0..4)
        .map(|_| c.next_core().unwrap().call(&set).1)
        .collect();
    assert_eq!(handed, vec![Some(2), Some(3), Some(4), Some(2)]);
    assert_eq!(next(&mut c), Some(3));
}

#[test]
fn error_messages() {
    assert_eq!(UtilError::NoCpuCores.message(), "util error: no CPU cores found");
    assert_eq!(
        UtilError::InvalidCpuCoreRange(" x".to_string()).message(),
        "util error: invalid CPU core/range  x"
    );
    assert_eq!(UtilError::CpuCoreNotFound(8).message(), "util error: CPU core 8 not found");
}

#[test]
fn error_messages_of_parses() {
    let ids: Option<Vec<usize>> = Some((0..=7).collect());
    let e = CpuRange::from_str_with_core_ids("0-9", ids).unwrap_err();
    assert_eq!(e.message(), "util error: CPU core 8 not found");
    let ids: Option<Vec<usize>> = Some((0..=3).collect());
    let e = CpuRange::from_str_with_core_ids("0, x", ids).unwrap_err();
    assert_eq!(e.message(), "util error: invalid CPU core/range  x");
}
