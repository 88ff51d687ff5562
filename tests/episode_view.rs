use ep_rec_api::episode::{episodes_by_name, EpisodeRecord, WINDOW};

fn row(name: &str, year: &str, month: &str, num: &str, abs: &str, series: i64) -> EpisodeRecord {
    EpisodeRecord {
        episode_name: name.to_string(),
        year: year.to_string(),
        month: month.to_string(),
        episode_num: num.to_string(),
        abstract_text: abs.to_string(),
        series_id: series,
    }
}

fn flat(ids: &Vec<i64>, rows: &Vec<EpisodeRecord>) -> Vec<(String, Vec<String>)> {
    episodes_by_name(ids, rows)
        .into_iter()
        .map(|g| (g.episode_name, g.abstracts))
        .collect()
}

fn strings(v: &[&str]) -> Vec<String> {
    v.iter().map(|s| s.to_string()).collect()
}

#[test]
fn four_dated_entries_keep_newest_three() {
    let rows = vec![
        row("Ep", "2020", "01", "1", "oldest", 1),
        row("Ep", "2021", "05", "2", "newest", 1),
        row("Ep", "2020", "06", "1", "middle", 1),
        row("Ep", "2021", "01", "1", "second", 1),
    ];
    assert_eq!(
        flat(&vec![1], &rows),
        vec![("Ep".to_string(), strings(&["newest", "second", "middle"]))]
    );
}

#[test]
fn empty_id_list_gives_empty_view() {
    let rows = vec![row("Ep", "2020", "01", "1", "a", 1)];
    assert!(episodes_by_name(&Vec::new(), &rows).is_empty());
}

#[test]
fn rows_of_other_series_are_left_out() {
    let rows = vec![
        row("A", "2020", "01", "1", "a1", 1),
        row("B", "2020", "01", "1", "b1", 2),
        row("A", "2020", "02", "1", "a2", 3),
    ];
    assert_eq!(
        flat(&vec![3, 1, 1], &rows),
        vec![("A".to_string(), strings(&["a2", "a1"]))]
    );
    assert!(flat(&vec![9], &rows).is_empty());
}

#[test]
fn groups_ordered_by_name_and_capped() {
    let mut rows = Vec::new();
    for i in 0..6 {
        rows.push(row("Zed", "2020", "01", &i.to_string(), &format!("z{}", i), 1));
    }
    rows.push(row("Alpha", "2019", "12", "1", "alpha", 2));
    let view = flat(&vec![1, 2], &rows);
    assert_eq!(view.len(), 2);
    assert_eq!(view[0], ("Alpha".to_string(), strings(&["alpha"])));
    assert_eq!(view[1], ("Zed".to_string(), strings(&["z5", "z4", "z3"])));
    for (_, abstracts) in &view {
        assert!(abstracts.len() <= WINDOW);
    }
}

#[test]
fn dates_compare_as_strings() {
    let rows = vec![
        row("Ep", "2021", "10", "1", "october", 1),
        row("Ep", "2021", "9", "1", "september", 1),
        row("Ep", "2021", "11", "1", "november", 1),
    ];
    assert_eq!(
        flat(&vec![1], &rows),
        vec![("Ep".to_string(), strings(&["september", "november", "october"]))]
    );
}

#[test]
fn equal_dates_keep_scan_order() {
    let rows = vec![
        row("Ep", "2021", "01", "1", "first", 1),
        row("Ep", "2021", "01", "1", "second", 1),
        row("Ep", "2021", "01", "1", "third", 1),
        row("Ep", "2021", "01", "1", "fourth", 1),
    ];
    assert_eq!(
        flat(&vec![1], &rows),
        vec![("Ep".to_string(), strings(&["first", "second", "third"]))]
    );
}

#[test]
fn episode_number_breaks_date_ties() {
    let rows = vec![
        row("Ep", "2021", "01", "1", "one", 1),
        row("Ep", "2021", "01", "3", "three", 1),
        row("Ep", "2021", "01", "2", "two", 1),
    ];
    assert_eq!(
        flat(&vec![1], &rows),
        vec![("Ep".to_string(), strings(&["three", "two", "one"]))]
    );
}
