use reddit_place_2022::colour::{create_colour_map, parse_colour, parse_colours, same_text};

#[test]
fn colour_names_give_their_samples() {
    assert_eq!(
        parse_colours(&["#AABBCC", "#123456"]),
        Some(vec![[0xaa, 0xbb, 0xcc], [0x12, 0x34, 0x56]])
    );
    assert_eq!(parse_colours(&[]), Some(vec![]));
}

#[test]
fn one_colour_name_gives_its_samples() {
    assert_eq!(parse_colour("#FF4500"), Some([0xff, 0x45, 0x00]));
    assert_eq!(parse_colour("#ffffff"), Some([255, 255, 255]));
    assert_eq!(parse_colour("#000000"), Some([0, 0, 0]));
    assert_eq!(parse_colour("#0a0B0c"), Some([10, 11, 12]));
}

#[test]
fn names_of_seven_characters_follow_the_number_they_write() {
    assert_eq!(parse_colour("##12345"), Some([0x01, 0x23, 0x45]));
    assert_eq!(parse_colour("#+12345"), Some([0x01, 0x23, 0x45]));
    assert_eq!(parse_colour("1234567"), Some([0x23, 0x45, 0x67]));
    assert_eq!(parse_colour("######f"), Some([0, 0, 15]));
}

#[test]
fn what_is_no_colour_name_is_rejected() {
    for name in ["", "#", "#FFF", "#FF45000", "FF4500", "#GG4500", "#FF 500", "#######", "######+", "#-12345", "#+-1234", "+#12345", "#ÿ4500", "#FF450é"] {
        assert_eq!(parse_colour(name), None, "{name}");
    }
    assert_eq!(parse_colours(&["#AABBCC", "#12345", "#123456"]), None);
    assert!(create_colour_map(&["#AABBCC", "nothing"]).is_none());
}

#[test]
fn the_table_finds_what_it_holds() {
    let table = create_colour_map(&["#AABBCC", "#123456", "#AABBCC"]).unwrap();
    assert_eq!(table.len(), 3);
    assert_eq!(table.lookup("#AABBCC"), Some([0xaa, 0xbb, 0xcc]));
    assert_eq!(table.lookup("#123456"), Some([0x12, 0x34, 0x56]));
    assert_eq!(table.lookup("#aabbcc"), None);
    assert_eq!(table.lookup("#000000"), None);
    assert_eq!(table.lookup(""), None);
}

#[test]
fn texts_are_the_same_when_their_characters_are() {
    assert!(same_text("", ""));
    assert!(same_text("abc", "abc"));
    assert!(same_text("é", "é"));
    assert!(!same_text("abc", "abd"));
    assert!(!same_text("abc", "ab"));
    assert!(!same_text("", "a"));
}
