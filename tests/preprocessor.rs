use onescript_preprocessor::preprocessor::Preprocessor;

#[test]
fn test_remove_directive() {
    let example = "#region Test\nProcedure Test()\nEndProcedure\n#EndRegion";

    let expected = " \nProcedure Test()\nEndProcedure\n ";

    let preprocessor = Preprocessor::new();
    let result = preprocessor.preprocess(example);
    assert_eq!(expected, result);
}

#[test]
fn markers_become_single_spaces() {
    let preprocessor = Preprocessor::new();
    assert_eq!(preprocessor.preprocess("#"), " ");
    assert_eq!(preprocessor.preprocess("#!"), " ");
}

#[test]
fn text_without_marker_is_unchanged() {
    let preprocessor = Preprocessor::new();
    let source = "Procedure A()\n  Message(\"it's\");\nEndProcedure\n";
    assert_eq!(preprocessor.preprocess(source), source);
    assert_eq!(preprocessor.preprocess(""), "");
}

#[test]
fn shebang_marker_blanked_and_use_directive_dropped() {
    let preprocessor = Preprocessor::new();
    let source = "#!/usr/bin/oscript\n#Использовать \"lib\"\nA = 1;";
    assert_eq!(preprocessor.preprocess(source), " /usr/bin/oscript\n \nA = 1;");
}

#[test]
fn quoted_marker_in_text_survives() {
    let preprocessor = Preprocessor::new();
    let source = "S = \"#region\";\n#region R\nB";
    assert_eq!(preprocessor.preprocess(source), "S = \"#region\";\n \nB");
}
