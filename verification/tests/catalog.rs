use font_catalog::FontCatalog;

fn owned(names: &[&str]) -> Vec<String> {
    names.iter().map(|name| name.to_string()).collect()
}

fn catalog_of(names: &[&str]) -> Vec<String> {
    FontCatalog::from_families(owned(names)).into_names()
}

#[test]
fn catalog_of_reported_families_is_sorted_and_deduplicated() {
    assert_eq!(
        catalog_of(&["Helvetica", "Arial", "Helvetica", "Courier"]),
        owned(&["Arial", "Courier", "Helvetica"])
    );
}

#[test]
fn catalog_of_nothing_is_empty() {
    assert_eq!(catalog_of(&[]), Vec::<String>::new());
    assert!(FontCatalog::new().into_names().is_empty());
}

#[test]
fn catalog_of_one_name_repeated_holds_it_once() {
    assert_eq!(catalog_of(&["Arial", "Arial", "Arial"]), owned(&["Arial"]));
}

#[test]
fn catalog_has_no_duplicates() {
    let names = catalog_of(&["b", "a", "c", "a", "b", "c", "a", "", ""]);
    for i in 0..names.len() {
        for j in 0..names.len() {
            if i != j {
                assert_ne!(names[i], names[j]);
            }
        }
    }
    assert_eq!(names, owned(&["", "a", "b", "c"]));
}

#[test]
fn catalog_is_ascending() {
    let names = catalog_of(&[
        "Noto Serif",
        "arial",
        "Zapfino",
        "Arial",
        "字体",
        "Noto Sans",
        "Arial Black",
        "é",
        "Noto Sans CJK JP",
    ]);
    for pair in names.windows(2) {
        assert!(pair[0] <= pair[1]);
        assert!(pair[0] < pair[1]);
    }
    assert_eq!(
        names,
        owned(&[
            "Arial",
            "Arial Black",
            "Noto Sans",
            "Noto Sans CJK JP",
            "Noto Serif",
            "Zapfino",
            "arial",
            "é",
            "字体",
        ])
    );
}

#[test]
fn catalog_keeps_names_that_differ_only_in_case_or_space() {
    assert_eq!(
        catalog_of(&["arial", "Arial", "Arial ", " Arial"]),
        owned(&[" Arial", "Arial", "Arial ", "arial"])
    );
}

#[test]
fn catalog_agrees_with_sorting_and_removing_repeats() {
    let reported = owned(&[
        "Liberation Sans",
        "DejaVu Sans",
        "DejaVu Sans Mono",
        "Liberation Sans",
        "DejaVu Serif",
        "Noto Color Emoji",
        "DejaVu Sans",
        "Liberation Mono",
        "Ubuntu",
        "ubuntu",
        "",
        "DejaVu Sans Mono",
        "\u{10000}",
        "\u{ffff}",
    ]);
    let mut expected = reported.clone();
    expected.sort();
    expected.dedup();
    assert_eq!(FontCatalog::from_families(reported).into_names(), expected);
}

#[test]
fn catalog_depends_only_on_the_names_reported() {
    let first = catalog_of(&["Helvetica", "Arial", "Helvetica", "Courier"]);
    let second = catalog_of(&["Courier", "Courier", "Arial", "Helvetica", "Arial"]);
    let third = catalog_of(&["Arial", "Courier", "Helvetica"]);
    assert_eq!(first, second);
    assert_eq!(first, third);
}

#[test]
fn catalog_of_the_same_report_twice_is_the_same() {
    let report = ["Ubuntu", "Cantarell", "Ubuntu Mono", "Cantarell"];
    assert_eq!(catalog_of(&report), catalog_of(&report));
}

#[test]
fn catalog_of_a_catalog_is_itself() {
    let once = catalog_of(&["b", "c", "a", "b"]);
    let again = FontCatalog::from_families(once.clone()).into_names();
    assert_eq!(again, once);
}

#[test]
fn catalog_is_no_longer_than_the_report() {
    assert_eq!(catalog_of(&["x", "y", "x", "z", "y"]).len(), 3);
    assert_eq!(catalog_of(&["x", "y", "z"]).len(), 3);
}

#[test]
fn insert_says_whether_the_name_was_new() {
    let mut catalog = FontCatalog::new();
    assert!(catalog.insert("Helvetica".to_string()));
    assert!(catalog.insert("Arial".to_string()));
    assert!(!catalog.insert("Helvetica".to_string()));
    assert!(catalog.insert("Courier".to_string()));
    assert!(!catalog.insert("Arial".to_string()));
    assert_eq!(catalog.into_names(), owned(&["Arial", "Courier", "Helvetica"]));
}

#[test]
fn insert_puts_the_name_in_its_place() {
    let mut catalog = FontCatalog::from_families(owned(&["b", "d", "f"]));
    assert!(catalog.insert("a".to_string()));
    assert!(catalog.insert("g".to_string()));
    assert!(catalog.insert("c".to_string()));
    assert!(catalog.insert("e".to_string()));
    assert_eq!(
        catalog.into_names(),
        owned(&["a", "b", "c", "d", "e", "f", "g"])
    );
}

#[test]
fn find_gives_the_place_of_a_name_that_is_listed() {
    let catalog = FontCatalog::from_families(owned(&["Helvetica", "Arial", "Courier"]));
    assert_eq!(catalog.find("Arial"), Ok(0));
    assert_eq!(catalog.find("Courier"), Ok(1));
    assert_eq!(catalog.find("Helvetica"), Ok(2));
}

#[test]
fn find_gives_the_place_where_a_missing_name_belongs() {
    let catalog = FontCatalog::from_families(owned(&["Helvetica", "Arial", "Courier"]));
    assert_eq!(catalog.find(""), Err(0));
    assert_eq!(catalog.find("Aria"), Err(0));
    assert_eq!(catalog.find("Arial Black"), Err(1));
    assert_eq!(catalog.find("Futura"), Err(2));
    assert_eq!(catalog.find("Zapfino"), Err(3));
    assert_eq!(catalog.find("arial"), Err(3));
    assert_eq!(FontCatalog::new().find("Arial"), Err(0));
}

#[test]
fn find_sees_every_name_of_a_long_catalog() {
    let reported: Vec<String> = (0..200).rev().map(|n| format!("Family {:03}", n)).collect();
    let catalog = FontCatalog::from_families(reported);
    for n in 0..200 {
        assert_eq!(catalog.find(&format!("Family {:03}", n)), Ok(n));
        assert_eq!(catalog.find(&format!("Family {:03}x", n)), Err(n + 1));
    }
}
