use ep_rec_api::period::{series_by_period, SeriesRecord};
use ep_rec_api::text::{compare_text, period_key};
use std::cmp::Ordering;

fn rec(id: i64, name: &str, year: &str, month: &str) -> SeriesRecord {
    SeriesRecord {
        id,
        name: name.to_string(),
        year: year.to_string(),
        month: month.to_string(),
    }
}

fn flat(records: &Vec<SeriesRecord>) -> Vec<(String, Vec<(i64, String)>)> {
    series_by_period(records)
        .into_iter()
        .map(|g| {
            (
                g.period,
                g.items.into_iter().map(|i| (i.id, i.series_name)).collect(),
            )
        })
        .collect()
}

#[test]
fn three_series_two_periods() {
    let records = vec![
        rec(1, "Alpha", "2021", "3"),
        rec(2, "Beta", "2021", "3"),
        rec(3, "Gamma", "2021", "11"),
    ];
    assert_eq!(
        flat(&records),
        vec![
            (
                "202103".to_string(),
                vec![(1, "Alpha".to_string()), (2, "Beta".to_string())]
            ),
            ("202111".to_string(), vec![(3, "Gamma".to_string())]),
        ]
    );
}

#[test]
fn empty_table_gives_no_groups() {
    assert!(series_by_period(&Vec::new()).is_empty());
}

#[test]
fn groups_sorted_by_name_and_keys_ascending() {
    let records = vec![
        rec(5, "Zeta", "2020", "12"),
        rec(6, "Eta", "2019", "01"),
        rec(7, "Beta", "2020", "12"),
        rec(8, "Alpha", "2020", "12"),
    ];
    assert_eq!(
        flat(&records),
        vec![
            ("201901".to_string(), vec![(6, "Eta".to_string())]),
            (
                "202012".to_string(),
                vec![
                    (8, "Alpha".to_string()),
                    (7, "Beta".to_string()),
                    (5, "Zeta".to_string())
                ]
            ),
        ]
    );
}

#[test]
fn equal_names_keep_scan_order() {
    let records = vec![
        rec(3, "Same", "2022", "5"),
        rec(1, "Same", "2022", "05"),
        rec(2, "Other", "2022", "5"),
    ];
    assert_eq!(
        flat(&records),
        vec![(
            "202205".to_string(),
            vec![
                (2, "Other".to_string()),
                (3, "Same".to_string()),
                (1, "Same".to_string())
            ]
        )]
    );
}

#[test]
fn every_record_lands_in_exactly_one_group() {
    let records = vec![
        rec(1, "A", "2021", "1"),
        rec(2, "B", "2021", "2"),
        rec(3, "C", "2021", "1"),
        rec(4, "D", "2020", "12"),
    ];
    let groups = flat(&records);
    for r in &records {
        let key = format!("{}{:0>2}", r.year, r.month);
        let holding: Vec<&String> = groups
            .iter()
            .filter(|(_, items)| items.iter().any(|(id, _)| *id == r.id))
            .map(|(k, _)| k)
            .collect();
        assert_eq!(holding, vec![&key]);
    }
}

#[test]
fn malformed_year_and_month_still_give_a_key() {
    let records = vec![rec(1, "A", "", ""), rec(2, "B", "20x", "123")];
    assert_eq!(
        flat(&records),
        vec![
            ("00".to_string(), vec![(1, "A".to_string())]),
            ("20x123".to_string(), vec![(2, "B".to_string())]),
        ]
    );
}

#[test]
fn period_key_pads_month_to_two() {
    assert_eq!(period_key(&"2021".to_string(), &"3".to_string()), "202103");
    assert_eq!(period_key(&"2021".to_string(), &"11".to_string()), "202111");
    assert_eq!(period_key(&"2021".to_string(), &"".to_string()), "202100");
    assert_eq!(period_key(&"1999".to_string(), &"é".to_string()), "19990é");
}

#[test]
fn compare_text_follows_string_order() {
    let cases = [("a", "b"), ("b", "a"), ("ab", "a"), ("", ""), ("9", "10"), ("Z", "a"), ("é", "z")];
    for (a, b) in cases {
        assert_eq!(compare_text(&a.to_string(), &b.to_string()), a.cmp(b));
    }
    assert_eq!(compare_text(&"9".to_string(), &"10".to_string()), Ordering::Greater);
}
