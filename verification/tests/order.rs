use font_catalog::{compare_names, NameOrder};

fn samples() -> Vec<&'static str> {
    vec![
        "",
        " ",
        "A",
        "Arial",
        "Arial Black",
        "Arial Narrow",
        "Z",
        "a",
        "arial",
        "é",
        "Ωmega",
        "字体",
        "\u{ffff}",
        "\u{10000}",
        "\u{10ffff}",
        "Noto Sans",
        "Noto Sans CJK JP",
        "Noto Serif",
    ]
}

#[test]
fn compare_names_equal_names_are_same() {
    assert_eq!(compare_names("Arial", "Arial"), NameOrder::Same);
    assert_eq!(compare_names("", ""), NameOrder::Same);
    assert_eq!(compare_names("字体", "字体"), NameOrder::Same);
}

#[test]
fn compare_names_prefix_comes_first() {
    assert_eq!(compare_names("Arial", "Arial Black"), NameOrder::Before);
    assert_eq!(compare_names("Arial Black", "Arial"), NameOrder::After);
    assert_eq!(compare_names("", "A"), NameOrder::Before);
    assert_eq!(compare_names("A", ""), NameOrder::After);
}

#[test]
fn compare_names_first_difference_decides() {
    assert_eq!(compare_names("Courier", "Helvetica"), NameOrder::Before);
    assert_eq!(compare_names("Helvetica", "Arial"), NameOrder::After);
    assert_eq!(compare_names("Arial Narrow", "Arial Black"), NameOrder::After);
    assert_eq!(compare_names("Noto Sans", "Noto Serif"), NameOrder::Before);
}

#[test]
fn compare_names_goes_by_bytes_not_by_case() {
    assert_eq!(compare_names("Z", "a"), NameOrder::Before);
    assert_eq!(compare_names("arial", "Arial"), NameOrder::After);
    assert_eq!(compare_names("z", "é"), NameOrder::Before);
}

#[test]
fn compare_names_follows_code_points() {
    assert_eq!(compare_names("\u{ffff}", "\u{10000}"), NameOrder::Before);
    assert_eq!(compare_names("\u{10000}", "\u{10ffff}"), NameOrder::Before);
    assert_eq!(compare_names("字体", "é"), NameOrder::After);
}

#[test]
fn compare_names_agrees_with_the_order_of_strings() {
    let names = samples();
    for a in &names {
        for b in &names {
            let expected = if a < b {
                NameOrder::Before
            } else if a == b {
                NameOrder::Same
            } else {
                NameOrder::After
            };
            assert_eq!(compare_names(a, b), expected, "{:?} against {:?}", a, b);
        }
    }
}

#[test]
fn compare_names_is_turned_round_by_swapping() {
    let names = samples();
    for a in &names {
        for b in &names {
            let turned = match compare_names(b, a) {
                NameOrder::Before => NameOrder::After,
                NameOrder::Same => NameOrder::Same,
                NameOrder::After => NameOrder::Before,
            };
            assert_eq!(compare_names(a, b), turned);
        }
    }
}

#[test]
fn compare_names_is_transitive_on_samples() {
    let names = samples();
    for a in &names {
        for b in &names {
            for c in &names {
                if compare_names(a, b) == NameOrder::Before
                    && compare_names(b, c) == NameOrder::Before
                {
                    assert_eq!(compare_names(a, c), NameOrder::Before);
                }
            }
        }
    }
}
