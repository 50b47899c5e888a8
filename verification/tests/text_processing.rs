use indexer::text_processing::{process_text, remove_unwanted_characters, tokenize};

#[test]
fn test_remove_unwanted_characters() {
    let tests: Vec<(&str, &str)> = vec![
        ("Hello, world!", "Hello world"),
        ("Hello, world! 123", "Hello world 123"),
        ("Hello, world! 123 $%^&*()", "Hello world 123"),
    ];

    for (input, expected_output) in tests {
        let output = remove_unwanted_characters(input);
        assert_eq!(output, expected_output);
    }
}

#[test]
fn test_tokenize() {
    let tests: Vec<(&str, Vec<&str>)> = vec![
        ("Hello, world!", vec!["Hello", ",", "world", "!"]),
        ("Hello, world! 123", vec!["Hello", ",", "world", "!", "123"]),
        (
            "Hello, world! 123 $%^&*()",
            vec![
                "Hello", ",", "world", "!", "123", "$", "%", "^", "&", "*", "(", ")",
            ],
        ),
    ];

    for (input, expected_output) in tests {
        let output = tokenize(input);
        assert_eq!(output, expected_output);
    }
}

#[test]
fn test_process_text() {
    let input = "A blue car!";
    let expected_output = "blue car";
    let output = process_text(input);
    assert_eq!(output, expected_output);
}

#[test]
fn test_process_spanish_text() {
    let input = "Hola, mundo este idioma es español!";
    let expected_output = "hola mundo este idioma es español";
    let output = process_text(input);
    assert_eq!(output, expected_output);
}

#[test]
fn text_processing_test_process_text() {
    let input = "Hello, world!";
    let expected_output = "hello world";
    let output = process_text(input);
    assert_eq!(output, expected_output);
}

#[test]
fn text_processing_test_process_spanish_text() {
    let input = "Hola, mundo este idioma es español!";
    let expected_output = "hola mundo este idioma es español";
    let output = process_text(input);
    assert_eq!(output, expected_output);
}
