use font_catalog::greet;

#[test]
fn greet_world_is_the_fixed_template() {
    assert_eq!(greet("World"), "Hello, World! You've been greeted from Rust!");
}

#[test]
fn greet_empty_name_leaves_the_slot_empty() {
    assert_eq!(greet(""), "Hello, ! You've been greeted from Rust!");
}

#[test]
fn greet_keeps_the_name_as_given() {
    assert_eq!(
        greet("  Zoë {}\n"),
        "Hello,   Zoë {}\n! You've been greeted from Rust!"
    );
}

#[test]
fn greet_is_opening_name_closing() {
    let name = "字体";
    let text = greet(name);
    assert!(text.starts_with("Hello, "));
    assert!(text.ends_with("! You've been greeted from Rust!"));
    assert_eq!(
        text.len(),
        "Hello, ".len() + name.len() + "! You've been greeted from Rust!".len()
    );
    assert_eq!(&text["Hello, ".len().."Hello, ".len() + name.len()], name);
}
