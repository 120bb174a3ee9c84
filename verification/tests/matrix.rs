use rotation_renderer::matrix::{
    classify_matrix_entry, clean_key, math_operation, remove_brackets_content, MathOperation,
    MatrixEntry, StringRotationMatrix, MATH_OPERATION_NAMES,
};

fn operation_of(element: &str) -> Option<MathOperation> {
    match classify_matrix_entry(element) {
        MatrixEntry::Operation(op) => Some(op),
        MatrixEntry::Number(_) => None,
    }
}

fn number_of(element: &str) -> Option<String> {
    match classify_matrix_entry(element) {
        MatrixEntry::Operation(_) => None,
        MatrixEntry::Number(text) => Some(text),
    }
}

#[test]
fn remove_brackets_content_keeps_only_the_brackets() {
    assert_eq!(remove_brackets_content("sin(x)".to_string()), "sin()");
    assert_eq!(remove_brackets_content("(a)(bc)d".to_string()), "()()d");
    assert_eq!(remove_brackets_content("x)y".to_string()), "x)y");
    assert_eq!(remove_brackets_content(String::new()), "");
}

#[test]
fn remove_brackets_content_drops_the_rest_after_an_open_bracket() {
    assert_eq!(remove_brackets_content("a(b".to_string()), "a(");
    assert_eq!(remove_brackets_content("cos(theta".to_string()), "cos(");
}

#[test]
fn remove_brackets_content_is_idempotent() {
    for text in ["sin(x)", "a(b", "((x))y", "plain", "-cos( t )"] {
        let once = remove_brackets_content(text.to_string());
        assert_eq!(remove_brackets_content(once.clone()), once);
    }
}

#[test]
fn clean_key_lowers_case_and_removes_blanks_and_arguments() {
    assert_eq!(clean_key("  SIN( theta )"), "sin()");
    assert_eq!(clean_key("- Cos"), "-cos");
    assert_eq!(clean_key("1 . 0"), "1.0");
}

#[test]
fn math_operation_finds_the_named_operation() {
    assert_eq!(math_operation(&"sin()".to_string()), Some(MathOperation::Sine));
    assert_eq!(math_operation(&"kosinus".to_string()), Some(MathOperation::Cosine));
    assert_eq!(math_operation(&"-arctangens".to_string()), Some(MathOperation::NegativeArcTangent));
    assert_eq!(math_operation(&"0.0".to_string()), Some(MathOperation::Zero));
    assert_eq!(math_operation(&"-1".to_string()), Some(MathOperation::Negation));
    assert_eq!(math_operation(&"Sin".to_string()), None);
    assert_eq!(math_operation(&"2".to_string()), None);
}

#[test]
fn every_listed_name_is_an_operation() {
    assert_eq!(MATH_OPERATION_NAMES.len(), 54);
    for name in MATH_OPERATION_NAMES.iter() {
        assert!(math_operation(&name.to_string()).is_some(), "{}", name);
        assert!(operation_of(name).is_some(), "{}", name);
    }
}

#[test]
fn classify_matrix_entry_reads_operations() {
    assert_eq!(operation_of("  SIN( theta )"), Some(MathOperation::Sine));
    assert_eq!(operation_of("-Cos"), Some(MathOperation::NegativeCosine));
    assert_eq!(operation_of("Tangens"), Some(MathOperation::Tangent));
    assert_eq!(operation_of("ACOS(x)"), Some(MathOperation::ArcCosine));
    assert_eq!(operation_of("1.0"), Some(MathOperation::Identity));
    assert_eq!(operation_of(" 0 "), Some(MathOperation::Zero));
    assert_eq!(operation_of("-1.0"), Some(MathOperation::Negation));
}

#[test]
fn classify_matrix_entry_hands_on_numbers_as_text() {
    assert_eq!(number_of("0.5"), Some("0.5".to_string()));
    assert_eq!(number_of(" 2 5 "), Some("25".to_string()));
    assert_eq!(number_of("abc(def)"), Some("abc()".to_string()));
    assert_eq!(number_of("sin(x"), Some("sin(".to_string()));
}

#[test]
fn classify_entries_reads_all_nine_entries_row_by_row() {
    let matrix = StringRotationMatrix {
        line_x: ["1".to_string(), "0".to_string(), "0".to_string()],
        line_y: ["0".to_string(), "cos".to_string(), "-Sin(theta)".to_string()],
        line_z: ["0".to_string(), "SIN".to_string(), "2.5".to_string()],
    };
    let entries = matrix.classify_entries();
    assert_eq!(entries.len(), 9);
    let ops: Vec<Option<MathOperation>> = entries
        .iter()
        .map(|e| match e {
            MatrixEntry::Operation(op) => Some(*op),
            MatrixEntry::Number(_) => None,
        })
        .collect();
    assert_eq!(
        ops,
        vec![
            Some(MathOperation::Identity),
            Some(MathOperation::Zero),
            Some(MathOperation::Zero),
            Some(MathOperation::Zero),
            Some(MathOperation::Cosine),
            Some(MathOperation::NegativeSine),
            Some(MathOperation::Zero),
            Some(MathOperation::Sine),
            None,
        ]
    );
    assert!(matches!(&entries[8], MatrixEntry::Number(text) if text == "2.5"));
}
