use process_intake::borrowing::{add_exclamation, calculate_length};
use process_intake::ownership::{gives_ownership, takes_and_gives_back};

#[test]
fn gives_a_fresh_string() {
    assert_eq!(gives_ownership(), "I'm yours now!");
}

#[test]
fn hands_the_same_string_back() {
    assert_eq!(takes_and_gives_back(String::from("Take and return")), "Take and return");
}

#[test]
fn length_counts_bytes() {
    assert_eq!(calculate_length(&String::from("Hello, world!")), 13);
    assert_eq!(calculate_length(&String::new()), 0);
    assert_eq!(calculate_length(&String::from("héllo")), 6);
}

#[test]
fn exclamation_is_appended() {
    let mut s = String::from("Hello, world!");
    add_exclamation(&mut s);
    assert_eq!(s, "Hello, world!!");
    let mut e = String::new();
    add_exclamation(&mut e);
    assert_eq!(e, "!");
}
