use indexer::text_processing::{
    contains_string, is_blank_piece, join_tokens, normalize, process_text, remove_listed_words,
    remove_stop_words, remove_unwanted_characters, tokenize,
};

fn strings(words: &[&str]) -> Vec<String> {
    words.iter().map(|w| w.to_string()).collect()
}

#[test]
fn normalize_gives_the_tokens_in_order() {
    assert_eq!(normalize("A blue car!"), strings(&["blue", "car"]));
    assert_eq!(
        normalize("The quick brown Fox; the lazy dog."),
        strings(&["quick", "brown", "fox", "lazy", "dog"])
    );
}

#[test]
fn normalize_lowercases() {
    assert_eq!(normalize("BLUE Car"), strings(&["blue", "car"]));
    assert_eq!(process_text("ÉCOLE Über"), "école über");
}

#[test]
fn normalize_is_idempotent_on_its_output() {
    for text in [
        "A blue car!",
        "Hello, world! 123 $%^&*()",
        "Hola, mundo este idioma es español!",
        "  tabs\tand\nnewlines  ",
        "can't won't 3.14 e-mail",
        "",
    ] {
        let once = process_text(text);
        let twice = process_text(&once);
        assert_eq!(once, twice);
        assert_eq!(normalize(&once), normalize(text));
    }
}

#[test]
fn normalize_of_nothing_is_empty() {
    assert!(normalize("").is_empty());
    assert!(normalize("   \t\n ").is_empty());
    assert!(normalize("!!! ... ???").is_empty());
    assert!(normalize("the a an of and").is_empty());
    assert_eq!(process_text("The, a; AND!"), "");
}

#[test]
fn punctuation_inside_a_word_joins_its_halves() {
    assert_eq!(normalize("can't e-mail 3.14"), strings(&["cant", "email", "314"]));
}

#[test]
fn other_scripts_are_segmented() {
    assert_eq!(normalize("Привет, мир!"), strings(&["привет", "мир"]));
    assert_eq!(remove_unwanted_characters("日本語、テスト。"), "日本語テスト");
}

#[test]
fn remove_unwanted_characters_trims_both_ends() {
    assert_eq!(remove_unwanted_characters("  \t hello  world \n"), "hello  world");
    assert_eq!(remove_unwanted_characters("!?"), "");
    assert_eq!(remove_unwanted_characters(""), "");
    assert_eq!(remove_unwanted_characters(" a\tb "), "a\tb");
}

#[test]
fn tokenize_drops_blank_pieces_only() {
    assert_eq!(tokenize("a  b\tc\r\nd"), strings(&["a", "b", "c", "d"]));
    assert_eq!(tokenize(""), Vec::<String>::new());
    assert_eq!(tokenize("   "), Vec::<String>::new());
    assert_eq!(tokenize("x-y"), strings(&["x", "-", "y"]));
}

#[test]
fn blank_pieces() {
    assert!(is_blank_piece(" "));
    assert!(is_blank_piece("\t\n "));
    assert!(is_blank_piece(""));
    assert!(!is_blank_piece(" a "));
    assert!(!is_blank_piece(","));
}

#[test]
fn stop_words_are_removed_by_exact_match() {
    assert_eq!(
        remove_stop_words(strings(&["this", "is", "a", "test", "This", "sentence"])),
        strings(&["test", "This", "sentence"])
    );
    assert_eq!(remove_stop_words(Vec::new()), Vec::<String>::new());
}

#[test]
fn listed_words_are_removed() {
    let stops = strings(&["b", "d"]);
    assert_eq!(
        remove_listed_words(strings(&["a", "b", "c", "d", "b", "e"]), &stops),
        strings(&["a", "c", "e"])
    );
    assert_eq!(remove_listed_words(strings(&["a", "b"]), &Vec::new()), strings(&["a", "b"]));
    assert!(contains_string(&stops, &"d".to_string()));
    assert!(!contains_string(&stops, &"a".to_string()));
}

#[test]
fn tokens_are_joined_by_single_spaces() {
    assert_eq!(join_tokens(&strings(&[])), "");
    assert_eq!(join_tokens(&strings(&["one"])), "one");
    assert_eq!(join_tokens(&strings(&["one", "two", "three"])), "one two three");
}
