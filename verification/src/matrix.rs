//! Reading the entries of a rotation matrix given as text.
use vstd::prelude::*;

verus! {

/// `s` with everything between an opening and the next closing bracket removed; the brackets
/// themselves are kept. `in_brackets` says whether `s` starts inside brackets.
pub open spec fn strip_brackets(s: Seq<char>, in_brackets: bool) -> Seq<char>
    decreases s.len(),
{
    if s.len() == 0 {
        Seq::empty()
    } else if in_brackets {
        if s[0] == ')' {
            seq![')'] + strip_brackets(s.drop_first(), false)
        } else {
            strip_brackets(s.drop_first(), true)
        }
    } else if s[0] == '(' {
        seq!['('] + strip_brackets(s.drop_first(), true)
    } else {
        seq![s[0]] + strip_brackets(s.drop_first(), false)
    }
}

/// Removing bracket contents twice removes no more than doing it once.
pub proof fn lemma_strip_brackets_idempotent(s: Seq<char>, in_brackets: bool)
    ensures
        strip_brackets(strip_brackets(s, in_brackets), in_brackets) == strip_brackets(s, in_brackets),
    decreases s.len(),
{
    if s.len() > 0 {
        let rest = s.drop_first();
        if in_brackets {
            if s[0] == ')' {
                lemma_strip_brackets_idempotent(rest, false);
                let t = seq![')'] + strip_brackets(rest, false);
                assert(t.drop_first() =~= strip_brackets(rest, false));
            } else {
                lemma_strip_brackets_idempotent(rest, true);
            }
        } else if s[0] == '(' {
            lemma_strip_brackets_idempotent(rest, true);
            let t = seq!['('] + strip_brackets(rest, true);
            assert(t.drop_first() =~= strip_brackets(rest, true));
        } else {
            lemma_strip_brackets_idempotent(rest, false);
            let t = seq![s[0]] + strip_brackets(rest, false);
            assert(t.drop_first() =~= strip_brackets(rest, false));
        }
    }
}

/// Calls `String::push`; the contract claims what its documentation says: afterwards the text
/// is the old text with `c` appended.
#[verifier::external_body]
pub(crate) fn push_char(text: &mut String, c: char)
    ensures
        final(text)@ == old(text)@.push(c),
{
    text.push(c);
}

/// Keeps the brackets of a text but removes what stands between them, e.g. `sin(x)` becomes
/// `sin()`. An opening bracket without a closing one removes the rest of the text.
pub fn remove_brackets_content(input_text: String) -> (output: String)
    ensures
        output@ == strip_brackets(input_text@, false),
{
    let mut in_brackets: bool = false;
    let mut output = String::new();
    assert(input_text@.skip(0) =~= input_text@);
    assert(output@ + strip_brackets(input_text@, false) =~= strip_brackets(input_text@, false));
    for c in it: input_text.chars()
        invariant
            it.seq() == input_text@,
            output@ + strip_brackets(input_text@.skip(it.index()), in_brackets) == strip_brackets(input_text@, false),
    {
        let ghost i = it.index();
        let ghost rest = input_text@.skip(i);
        assert(rest[0] == c);
        assert(rest.drop_first() =~= input_text@.skip(i + 1));
        let ghost before = output@;
        if in_brackets {
            if c == ')' {
                in_brackets = false;
                push_char(&mut output, ')');
                assert(output@ =~= before + seq![')']);
            }
        } else {
            if c == '(' {
                in_brackets = true;
                push_char(&mut output, '(');
                assert(output@ =~= before + seq!['(']);
            } else {
                push_char(&mut output, c);
                assert(output@ =~= before + seq![c]);
            }
        }
    }
    assert(input_text@.skip(input_text@.len() as int) =~= Seq::<char>::empty());
    output
}

/// The lower-case form of a text, as `str::to_lowercase` gives it.
pub uninterp spec fn lowercase_of(text: Seq<char>) -> Seq<char>;

/// Calls `str::to_lowercase`. Its result depends on the text alone, and the contract says no
/// more than that: the Unicode case mapping it applies is not written out here.
#[verifier::external_body]
fn to_lowercase(text: &str) -> (lowered: String)
    ensures
        lowered@ == lowercase_of(text@),
{
    text.to_lowercase()
}

/// A lower-cased matrix entry without its blanks and without what stands between brackets.
pub open spec fn cleaned(lowered: Seq<char>) -> Seq<char> {
    strip_brackets(lowered.filter(|c: char| c != ' '), false)
}

/// Removes the blanks of an already lower-cased matrix entry, then what stands between
/// brackets.
pub fn clean_lowercased_key(lowered: &str) -> (key: String)
    ensures
        key@ == cleaned(lowered@),
{
    let mut without_blanks = String::new();
    proof {
        reveal(Seq::filter);
    }
    assert(lowered@.take(0) =~= Seq::<char>::empty());
    for c in it: lowered.chars()
        invariant
            it.seq() == lowered@,
            without_blanks@ == lowered@.take(it.index()).filter(|c: char| c != ' '),
    {
        let ghost i = it.index();
        assert(lowered@.take(i + 1) =~= lowered@.take(i).push(c));
        proof {
            lowered@.take(i).lemma_filter_push(c, |c: char| c != ' ');
        }
        if c != ' ' {
            push_char(&mut without_blanks, c);
        }
    }
    assert(lowered@.take(lowered@.len() as int) =~= lowered@);
    remove_brackets_content(without_blanks)
}

/// The key under which a matrix entry is looked up: lower case, no blanks, nothing between
/// brackets.
pub fn clean_key(element: &str) -> (key: String)
    ensures
        key@ == cleaned(lowercase_of(element@)),
{
    let lowered = to_lowercase(element);
    clean_lowercased_key(lowered.as_str())
}

/// The operations that a rotation matrix entry can name. Each maps a coordinate `x` and an
/// angle `theta` to a number: `x` times a trigonometric function of `theta`, its negation,
/// `0`, `x` or `-x`.
#[derive(Clone, Copy, Debug, PartialEq, Eq, Structural)]
pub enum MathOperation {
    Sine,
    Cosine,
    Tangent,
    ArcSine,
    ArcCosine,
    ArcTangent,
    NegativeSine,
    NegativeCosine,
    NegativeTangent,
    NegativeArcSine,
    NegativeArcCosine,
    NegativeArcTangent,
    Zero,
    Identity,
    Negation,
}

/// Every key that names an operation.
pub const MATH_OPERATION_NAMES: [&'static str; 54] = [
    "sin", "cos", "tan", "asin", "acos", "atan",
    "sine", "cosine", "tangent", "arcsin", "arccos", "arctan",
    "sin()", "cos()", "tan()", "asin()", "acos()", "atan()",
    "sinus", "kosinus", "tangens", "arcsinus", "arccosinus", "arctangens",
    "-sin", "-cos", "-tan", "-asin", "-acos", "-atan",
    "-sine", "-cosine", "-tangent", "-arcsin", "-arccos", "-arctan",
    "-sin()", "-cos()", "-tan()", "-asin()", "-acos()", "-atan()",
    "-sinus", "-kosinus", "-tangens", "-arcsinus", "-arccosinus", "-arctangens",
    "0", "1", "-1", "0.0", "1.0", "-1.0",
];

/// The operation that a cleaned key names, if any.
pub open spec fn math_operation_of(key: Seq<char>) -> Option<MathOperation> {
    if key == "sin"@ || key == "sine"@ || key == "sin()"@ || key == "sinus"@ {
        Some(MathOperation::Sine)
    } else if key == "cos"@ || key == "cosine"@ || key == "cos()"@ || key == "kosinus"@ {
        Some(MathOperation::Cosine)
    } else if key == "tan"@ || key == "tangent"@ || key == "tan()"@ || key == "tangens"@ {
        Some(MathOperation::Tangent)
    } else if key == "asin"@ || key == "arcsin"@ || key == "asin()"@ || key == "arcsinus"@ {
        Some(MathOperation::ArcSine)
    } else if key == "acos"@ || key == "arccos"@ || key == "acos()"@ || key == "arccosinus"@ {
        Some(MathOperation::ArcCosine)
    } else if key == "atan"@ || key == "arctan"@ || key == "atan()"@ || key == "arctangens"@ {
        Some(MathOperation::ArcTangent)
    } else if key == "-sin"@ || key == "-sine"@ || key == "-sin()"@ || key == "-sinus"@ {
        Some(MathOperation::NegativeSine)
    } else if key == "-cos"@ || key == "-cosine"@ || key == "-cos()"@ || key == "-kosinus"@ {
        Some(MathOperation::NegativeCosine)
    } else if key == "-tan"@ || key == "-tangent"@ || key == "-tan()"@ || key == "-tangens"@ {
        Some(MathOperation::NegativeTangent)
    } else if key == "-asin"@ || key == "-arcsin"@ || key == "-asin()"@ || key == "-arcsinus"@ {
        Some(MathOperation::NegativeArcSine)
    } else if key == "-acos"@ || key == "-arccos"@ || key == "-acos()"@ || key == "-arccosinus"@ {
        Some(MathOperation::NegativeArcCosine)
    } else if key == "-atan"@ || key == "-arctan"@ || key == "-atan()"@ || key == "-arctangens"@ {
        Some(MathOperation::NegativeArcTangent)
    } else if key == "0"@ || key == "0.0"@ {
        Some(MathOperation::Zero)
    } else if key == "1"@ || key == "1.0"@ {
        Some(MathOperation::Identity)
    } else if key == "-1"@ || key == "-1.0"@ {
        Some(MathOperation::Negation)
    } else {
        None
    }
}

/// The operation that negates `op`, where there is one: a trigonometric operation and its
/// negative form, and `x` and `-x`.
pub open spec fn negation_of(op: MathOperation) -> Option<MathOperation> {
    match op {
        MathOperation::Sine => Some(MathOperation::NegativeSine),
        MathOperation::Cosine => Some(MathOperation::NegativeCosine),
        MathOperation::Tangent => Some(MathOperation::NegativeTangent),
        MathOperation::ArcSine => Some(MathOperation::NegativeArcSine),
        MathOperation::ArcCosine => Some(MathOperation::NegativeArcCosine),
        MathOperation::ArcTangent => Some(MathOperation::NegativeArcTangent),
        MathOperation::Identity => Some(MathOperation::Negation),
        _ => None,
    }
}

/// A leading '-' negates: putting '-' before a key that names a trigonometric operation (or
/// `x`) gives a key that names the negated operation, and a key that starts with '-' never
/// names an operation that has a negation of its own.
pub proof fn lemma_minus_negates(k: Seq<char>)
    ensures
        math_operation_of(k) matches Some(op) ==> (negation_of(op) is Some ==> math_operation_of(
            seq!['-'] + k,
        ) == negation_of(op)),
        (k.len() > 0 && k[0] == '-' && math_operation_of(k) is Some) ==> negation_of(
            math_operation_of(k).unwrap(),
        ) is None,
{
    reveal_strlit("sin");
    reveal_strlit("-sin");
    assert("sin"@ =~= seq!['s', 'i', 'n']);
    assert("-sin"@ =~= seq!['-', 's', 'i', 'n']);
    assert("sin"@[0] != '-');
    assert(seq!['-'] + "sin"@ =~= "-sin"@);
    reveal_strlit("sine");
    reveal_strlit("-sine");
    assert("sine"@ =~= seq!['s', 'i', 'n', 'e']);
    assert("-sine"@ =~= seq!['-', 's', 'i', 'n', 'e']);
    assert("sine"@[0] != '-');
    assert(seq!['-'] + "sine"@ =~= "-sine"@);
    reveal_strlit("sin()");
    reveal_strlit("-sin()");
    assert("sin()"@ =~= seq!['s', 'i', 'n', '(', ')']);
    assert("-sin()"@ =~= seq!['-', 's', 'i', 'n', '(', ')']);
    assert("sin()"@[0] != '-');
    assert(seq!['-'] + "sin()"@ =~= "-sin()"@);
    reveal_strlit("sinus");
    reveal_strlit("-sinus");
    assert("sinus"@ =~= seq!['s', 'i', 'n', 'u', 's']);
    assert("-sinus"@ =~= seq!['-', 's', 'i', 'n', 'u', 's']);
    assert("sinus"@[0] != '-');
    assert(seq!['-'] + "sinus"@ =~= "-sinus"@);
    reveal_strlit("cos");
    reveal_strlit("-cos");
    assert("cos"@ =~= seq!['c', 'o', 's']);
    assert("-cos"@ =~= seq!['-', 'c', 'o', 's']);
    assert("cos"@[0] != '-');
    assert(seq!['-'] + "cos"@ =~= "-cos"@);
    reveal_strlit("cosine");
    reveal_strlit("-cosine");
    assert("cosine"@ =~= seq!['c', 'o', 's', 'i', 'n', 'e']);
    assert("-cosine"@ =~= seq!['-', 'c', 'o', 's', 'i', 'n', 'e']);
    assert("cosine"@[0] != '-');
    assert(seq!['-'] + "cosine"@ =~= "-cosine"@);
    reveal_strlit("cos()");
    reveal_strlit("-cos()");
    assert("cos()"@ =~= seq!['c', 'o', 's', '(', ')']);
    assert("-cos()"@ =~= seq!['-', 'c', 'o', 's', '(', ')']);
    assert("cos()"@[0] != '-');
    assert(seq!['-'] + "cos()"@ =~= "-cos()"@);
    reveal_strlit("kosinus");
    reveal_strlit("-kosinus");
    assert("kosinus"@ =~= seq!['k', 'o', 's', 'i', 'n', 'u', 's']);
    assert("-kosinus"@ =~= seq!['-', 'k', 'o', 's', 'i', 'n', 'u', 's']);
    assert("kosinus"@[0] != '-');
    assert(seq!['-'] + "kosinus"@ =~= "-kosinus"@);
    reveal_strlit("tan");
    reveal_strlit("-tan");
    assert("tan"@ =~= seq!['t', 'a', 'n']);
    assert("-tan"@ =~= seq!['-', 't', 'a', 'n']);
    assert("tan"@[0] != '-');
    assert(seq!['-'] + "tan"@ =~= "-tan"@);
    reveal_strlit("tangent");
    reveal_strlit("-tangent");
    assert("tangent"@ =~= seq!['t', 'a', 'n', 'g', 'e', 'n', 't']);
    assert("-tangent"@ =~= seq!['-', 't', 'a', 'n', 'g', 'e', 'n', 't']);
    assert("tangent"@[0] != '-');
    assert(seq!['-'] + "tangent"@ =~= "-tangent"@);
    reveal_strlit("tan()");
    reveal_strlit("-tan()");
    assert("tan()"@ =~= seq!['t', 'a', 'n', '(', ')']);
    assert("-tan()"@ =~= seq!['-', 't', 'a', 'n', '(', ')']);
    assert("tan()"@[0] != '-');
    assert(seq!['-'] + "tan()"@ =~= "-tan()"@);
    reveal_strlit("tangens");
    reveal_strlit("-tangens");
    assert("tangens"@ =~= seq!['t', 'a', 'n', 'g', 'e', 'n', 's']);
    assert("-tangens"@ =~= seq!['-', 't', 'a', 'n', 'g', 'e', 'n', 's']);
    assert("tangens"@[0] != '-');
    assert(seq!['-'] + "tangens"@ =~= "-tangens"@);
    reveal_strlit("asin");
    reveal_strlit("-asin");
    assert("asin"@ =~= seq!['a', 's', 'i', 'n']);
    assert("-asin"@ =~= seq!['-', 'a', 's', 'i', 'n']);
    assert("asin"@[0] != '-');
    assert(seq!['-'] + "asin"@ =~= "-asin"@);
    reveal_strlit("arcsin");
    reveal_strlit("-arcsin");
    assert("arcsin"@ =~= seq!['a', 'r', 'c', 's', 'i', 'n']);
    assert("-arcsin"@ =~= seq!['-', 'a', 'r', 'c', 's', 'i', 'n']);
    assert("arcsin"@[0] != '-');
    assert(seq!['-'] + "arcsin"@ =~= "-arcsin"@);
    reveal_strlit("asin()");
    reveal_strlit("-asin()");
    assert("asin()"@ =~= seq!['a', 's', 'i', 'n', '(', ')']);
    assert("-asin()"@ =~= seq!['-', 'a', 's', 'i', 'n', '(', ')']);
    assert("asin()"@[0] != '-');
    assert(seq!['-'] + "asin()"@ =~= "-asin()"@);
    reveal_strlit("arcsinus");
    reveal_strlit("-arcsinus");
    assert("arcsinus"@ =~= seq!['a', 'r', 'c', 's', 'i', 'n', 'u', 's']);
    assert("-arcsinus"@ =~= seq!['-', 'a', 'r', 'c', 's', 'i', 'n', 'u', 's']);
    assert("arcsinus"@[0] != '-');
    assert(seq!['-'] + "arcsinus"@ =~= "-arcsinus"@);
    reveal_strlit("acos");
    reveal_strlit("-acos");
    assert("acos"@ =~= seq!['a', 'c', 'o', 's']);
    assert("-acos"@ =~= seq!['-', 'a', 'c', 'o', 's']);
    assert("acos"@[0] != '-');
    assert(seq!['-'] + "acos"@ =~= "-acos"@);
    reveal_strlit("arccos");
    reveal_strlit("-arccos");
    assert("arccos"@ =~= seq!['a', 'r', 'c', 'c', 'o', 's']);
    assert("-arccos"@ =~= seq!['-', 'a', 'r', 'c', 'c', 'o', 's']);
    assert("arccos"@[0] != '-');
    assert(seq!['-'] + "arccos"@ =~= "-arccos"@);
    reveal_strlit("acos()");
    reveal_strlit("-acos()");
    assert("acos()"@ =~= seq!['a', 'c', 'o', 's', '(', ')']);
    assert("-acos()"@ =~= seq!['-', 'a', 'c', 'o', 's', '(', ')']);
    assert("acos()"@[0] != '-');
    assert(seq!['-'] + "acos()"@ =~= "-acos()"@);
    reveal_strlit("arccosinus");
    reveal_strlit("-arccosinus");
    assert("arccosinus"@ =~= seq!['a', 'r', 'c', 'c', 'o', 's', 'i', 'n', 'u', 's']);
    assert("-arccosinus"@ =~= seq!['-', 'a', 'r', 'c', 'c', 'o', 's', 'i', 'n', 'u', 's']);
    assert("arccosinus"@[0] != '-');
    assert(seq!['-'] + "arccosinus"@ =~= "-arccosinus"@);
    reveal_strlit("atan");
    reveal_strlit("-atan");
    assert("atan"@ =~= seq!['a', 't', 'a', 'n']);
    assert("-atan"@ =~= seq!['-', 'a', 't', 'a', 'n']);
    assert("atan"@[0] != '-');
    assert(seq!['-'] + "atan"@ =~= "-atan"@);
    reveal_strlit("arctan");
    reveal_strlit("-arctan");
    assert("arctan"@ =~= seq!['a', 'r', 'c', 't', 'a', 'n']);
    assert("-arctan"@ =~= seq!['-', 'a', 'r', 'c', 't', 'a', 'n']);
    assert("arctan"@[0] != '-');
    assert(seq!['-'] + "arctan"@ =~= "-arctan"@);
    reveal_strlit("atan()");
    reveal_strlit("-atan()");
    assert("atan()"@ =~= seq!['a', 't', 'a', 'n', '(', ')']);
    assert("-atan()"@ =~= seq!['-', 'a', 't', 'a', 'n', '(', ')']);
    assert("atan()"@[0] != '-');
    assert(seq!['-'] + "atan()"@ =~= "-atan()"@);
    reveal_strlit("arctangens");
    reveal_strlit("-arctangens");
    assert("arctangens"@ =~= seq!['a', 'r', 'c', 't', 'a', 'n', 'g', 'e', 'n', 's']);
    assert("-arctangens"@ =~= seq!['-', 'a', 'r', 'c', 't', 'a', 'n', 'g', 'e', 'n', 's']);
    assert("arctangens"@[0] != '-');
    assert(seq!['-'] + "arctangens"@ =~= "-arctangens"@);
    reveal_strlit("1");
    reveal_strlit("-1");
    assert("1"@ =~= seq!['1']);
    assert("-1"@ =~= seq!['-', '1']);
    assert("1"@[0] != '-');
    assert(seq!['-'] + "1"@ =~= "-1"@);
    reveal_strlit("1.0");
    reveal_strlit("-1.0");
    assert("1.0"@ =~= seq!['1', '.', '0']);
    assert("-1.0"@ =~= seq!['-', '1', '.', '0']);
    assert("1.0"@[0] != '-');
    assert(seq!['-'] + "1.0"@ =~= "-1.0"@);
    reveal_strlit("0");
    assert("0"@ =~= seq!['0']);
    assert("0"@[0] != '-');
    reveal_strlit("0.0");
    assert("0.0"@ =~= seq!['0', '.', '0']);
    assert("0.0"@[0] != '-');
}

/// Where a key stands among the listed names, or -1 if it is not listed.
spec fn listed_position(key: Seq<char>) -> int {
    if key == "sin"@ {
        0
    } else if key == "cos"@ {
        1
    } else if key == "tan"@ {
        2
    } else if key == "asin"@ {
        3
    } else if key == "acos"@ {
        4
    } else if key == "atan"@ {
        5
    } else if key == "sine"@ {
        6
    } else if key == "cosine"@ {
        7
    } else if key == "tangent"@ {
        8
    } else if key == "arcsin"@ {
        9
    } else if key == "arccos"@ {
        10
    } else if key == "arctan"@ {
        11
    } else if key == "sin()"@ {
        12
    } else if key == "cos()"@ {
        13
    } else if key == "tan()"@ {
        14
    } else if key == "asin()"@ {
        15
    } else if key == "acos()"@ {
        16
    } else if key == "atan()"@ {
        17
    } else if key == "sinus"@ {
        18
    } else if key == "kosinus"@ {
        19
    } else if key == "tangens"@ {
        20
    } else if key == "arcsinus"@ {
        21
    } else if key == "arccosinus"@ {
        22
    } else if key == "arctangens"@ {
        23
    } else if key == "-sin"@ {
        24
    } else if key == "-cos"@ {
        25
    } else if key == "-tan"@ {
        26
    } else if key == "-asin"@ {
        27
    } else if key == "-acos"@ {
        28
    } else if key == "-atan"@ {
        29
    } else if key == "-sine"@ {
        30
    } else if key == "-cosine"@ {
        31
    } else if key == "-tangent"@ {
        32
    } else if key == "-arcsin"@ {
        33
    } else if key == "-arccos"@ {
        34
    } else if key == "-arctan"@ {
        35
    } else if key == "-sin()"@ {
        36
    } else if key == "-cos()"@ {
        37
    } else if key == "-tan()"@ {
        38
    } else if key == "-asin()"@ {
        39
    } else if key == "-acos()"@ {
        40
    } else if key == "-atan()"@ {
        41
    } else if key == "-sinus"@ {
        42
    } else if key == "-kosinus"@ {
        43
    } else if key == "-tangens"@ {
        44
    } else if key == "-arcsinus"@ {
        45
    } else if key == "-arccosinus"@ {
        46
    } else if key == "-arctangens"@ {
        47
    } else if key == "0"@ {
        48
    } else if key == "1"@ {
        49
    } else if key == "-1"@ {
        50
    } else if key == "0.0"@ {
        51
    } else if key == "1.0"@ {
        52
    } else if key == "-1.0"@ {
        53
    } else {
        -1
    }
}

/// The listed names are exactly the keys that name an operation: each listed name names one,
/// every key that names one is listed, and no name is listed twice.
pub proof fn lemma_operation_names_are_the_keys()
    ensures
        MATH_OPERATION_NAMES@.len() == 54,
        forall|i: int| 0 <= i < 54 ==> math_operation_of(#[trigger] MATH_OPERATION_NAMES@[i]@) is Some,
        forall|k: Seq<char>|
            #[trigger] math_operation_of(k) is Some ==> exists|i: int|
                0 <= i < 54 && MATH_OPERATION_NAMES@[i]@ == k,
        forall|i: int, j: int|
            0 <= i < j < 54 ==> #[trigger] MATH_OPERATION_NAMES@[i]@ != #[trigger] MATH_OPERATION_NAMES@[j]@,
{
    reveal_strlit("sin");
    assert("sin"@ =~= seq!['s', 'i', 'n']);
    reveal_strlit("cos");
    assert("cos"@ =~= seq!['c', 'o', 's']);
    reveal_strlit("tan");
    assert("tan"@ =~= seq!['t', 'a', 'n']);
    reveal_strlit("asin");
    assert("asin"@ =~= seq!['a', 's', 'i', 'n']);
    reveal_strlit("acos");
    assert("acos"@ =~= seq!['a', 'c', 'o', 's']);
    reveal_strlit("atan");
    assert("atan"@ =~= seq!['a', 't', 'a', 'n']);
    reveal_strlit("sine");
    assert("sine"@ =~= seq!['s', 'i', 'n', 'e']);
    reveal_strlit("cosine");
    assert("cosine"@ =~= seq!['c', 'o', 's', 'i', 'n', 'e']);
    reveal_strlit("tangent");
    assert("tangent"@ =~= seq!['t', 'a', 'n', 'g', 'e', 'n', 't']);
    reveal_strlit("arcsin");
    assert("arcsin"@ =~= seq!['a', 'r', 'c', 's', 'i', 'n']);
    reveal_strlit("arccos");
    assert("arccos"@ =~= seq!['a', 'r', 'c', 'c', 'o', 's']);
    reveal_strlit("arctan");
    assert("arctan"@ =~= seq!['a', 'r', 'c', 't', 'a', 'n']);
    reveal_strlit("sin()");
    assert("sin()"@ =~= seq!['s', 'i', 'n', '(', ')']);
    reveal_strlit("cos()");
    assert("cos()"@ =~= seq!['c', 'o', 's', '(', ')']);
    reveal_strlit("tan()");
    assert("tan()"@ =~= seq!['t', 'a', 'n', '(', ')']);
    reveal_strlit("asin()");
    assert("asin()"@ =~= seq!['a', 's', 'i', 'n', '(', ')']);
    reveal_strlit("acos()");
    assert("acos()"@ =~= seq!['a', 'c', 'o', 's', '(', ')']);
    reveal_strlit("atan()");
    assert("atan()"@ =~= seq!['a', 't', 'a', 'n', '(', ')']);
    reveal_strlit("sinus");
    assert("sinus"@ =~= seq!['s', 'i', 'n', 'u', 's']);
    reveal_strlit("kosinus");
    assert("kosinus"@ =~= seq!['k', 'o', 's', 'i', 'n', 'u', 's']);
    reveal_strlit("tangens");
    assert("tangens"@ =~= seq!['t', 'a', 'n', 'g', 'e', 'n', 's']);
    reveal_strlit("arcsinus");
    assert("arcsinus"@ =~= seq!['a', 'r', 'c', 's', 'i', 'n', 'u', 's']);
    reveal_strlit("arccosinus");
    assert("arccosinus"@ =~= seq!['a', 'r', 'c', 'c', 'o', 's', 'i', 'n', 'u', 's']);
    reveal_strlit("arctangens");
    assert("arctangens"@ =~= seq!['a', 'r', 'c', 't', 'a', 'n', 'g', 'e', 'n', 's']);
    reveal_strlit("-sin");
    assert("-sin"@ =~= seq!['-', 's', 'i', 'n']);
    reveal_strlit("-cos");
    assert("-cos"@ =~= seq!['-', 'c', 'o', 's']);
    reveal_strlit("-tan");
    assert("-tan"@ =~= seq!['-', 't', 'a', 'n']);
    reveal_strlit("-asin");
    assert("-asin"@ =~= seq!['-', 'a', 's', 'i', 'n']);
    reveal_strlit("-acos");
    assert("-acos"@ =~= seq!['-', 'a', 'c', 'o', 's']);
    reveal_strlit("-atan");
    assert("-atan"@ =~= seq!['-', 'a', 't', 'a', 'n']);
    reveal_strlit("-sine");
    assert("-sine"@ =~= seq!['-', 's', 'i', 'n', 'e']);
    reveal_strlit("-cosine");
    assert("-cosine"@ =~= seq!['-', 'c', 'o', 's', 'i', 'n', 'e']);
    reveal_strlit("-tangent");
    assert("-tangent"@ =~= seq!['-', 't', 'a', 'n', 'g', 'e', 'n', 't']);
    reveal_strlit("-arcsin");
    assert("-arcsin"@ =~= seq!['-', 'a', 'r', 'c', 's', 'i', 'n']);
    reveal_strlit("-arccos");
    assert("-arccos"@ =~= seq!['-', 'a', 'r', 'c', 'c', 'o', 's']);
    reveal_strlit("-arctan");
    assert("-arctan"@ =~= seq!['-', 'a', 'r', 'c', 't', 'a', 'n']);
    reveal_strlit("-sin()");
    assert("-sin()"@ =~= seq!['-', 's', 'i', 'n', '(', ')']);
    reveal_strlit("-cos()");
    assert("-cos()"@ =~= seq!['-', 'c', 'o', 's', '(', ')']);
    reveal_strlit("-tan()");
    assert("-tan()"@ =~= seq!['-', 't', 'a', 'n', '(', ')']);
    reveal_strlit("-asin()");
    assert("-asin()"@ =~= seq!['-', 'a', 's', 'i', 'n', '(', ')']);
    reveal_strlit("-acos()");
    assert("-acos()"@ =~= seq!['-', 'a', 'c', 'o', 's', '(', ')']);
    reveal_strlit("-atan()");
    assert("-atan()"@ =~= seq!['-', 'a', 't', 'a', 'n', '(', ')']);
    reveal_strlit("-sinus");
    assert("-sinus"@ =~= seq!['-', 's', 'i', 'n', 'u', 's']);
    reveal_strlit("-kosinus");
    assert("-kosinus"@ =~= seq!['-', 'k', 'o', 's', 'i', 'n', 'u', 's']);
    reveal_strlit("-tangens");
    assert("-tangens"@ =~= seq!['-', 't', 'a', 'n', 'g', 'e', 'n', 's']);
    reveal_strlit("-arcsinus");
    assert("-arcsinus"@ =~= seq!['-', 'a', 'r', 'c', 's', 'i', 'n', 'u', 's']);
    reveal_strlit("-arccosinus");
    assert("-arccosinus"@ =~= seq!['-', 'a', 'r', 'c', 'c', 'o', 's', 'i', 'n', 'u', 's']);
    reveal_strlit("-arctangens");
    assert("-arctangens"@ =~= seq!['-', 'a', 'r', 'c', 't', 'a', 'n', 'g', 'e', 'n', 's']);
    reveal_strlit("0");
    assert("0"@ =~= seq!['0']);
    reveal_strlit("1");
    assert("1"@ =~= seq!['1']);
    reveal_strlit("-1");
    assert("-1"@ =~= seq!['-', '1']);
    reveal_strlit("0.0");
    assert("0.0"@ =~= seq!['0', '.', '0']);
    reveal_strlit("1.0");
    assert("1.0"@ =~= seq!['1', '.', '0']);
    reveal_strlit("-1.0");
    assert("-1.0"@ =~= seq!['-', '1', '.', '0']);
    assert(listed_position(MATH_OPERATION_NAMES@[0]@) == 0);
    assert(listed_position(MATH_OPERATION_NAMES@[1]@) == 1);
    assert(listed_position(MATH_OPERATION_NAMES@[2]@) == 2);
    assert(listed_position(MATH_OPERATION_NAMES@[3]@) == 3);
    assert(listed_position(MATH_OPERATION_NAMES@[4]@) == 4);
    assert(listed_position(MATH_OPERATION_NAMES@[5]@) == 5);
    assert(listed_position(MATH_OPERATION_NAMES@[6]@) == 6);
    assert(listed_position(MATH_OPERATION_NAMES@[7]@) == 7);
    assert(listed_position(MATH_OPERATION_NAMES@[8]@) == 8);
    assert(listed_position(MATH_OPERATION_NAMES@[9]@) == 9);
    assert(listed_position(MATH_OPERATION_NAMES@[10]@) == 10);
    assert(listed_position(MATH_OPERATION_NAMES@[11]@) == 11);
    assert(listed_position(MATH_OPERATION_NAMES@[12]@) == 12);
    assert(listed_position(MATH_OPERATION_NAMES@[13]@) == 13);
    assert(listed_position(MATH_OPERATION_NAMES@[14]@) == 14);
    assert(listed_position(MATH_OPERATION_NAMES@[15]@) == 15);
    assert(listed_position(MATH_OPERATION_NAMES@[16]@) == 16);
    assert(listed_position(MATH_OPERATION_NAMES@[17]@) == 17);
    assert(listed_position(MATH_OPERATION_NAMES@[18]@) == 18);
    assert(listed_position(MATH_OPERATION_NAMES@[19]@) == 19);
    assert(listed_position(MATH_OPERATION_NAMES@[20]@) == 20);
    assert(listed_position(MATH_OPERATION_NAMES@[21]@) == 21);
    assert(listed_position(MATH_OPERATION_NAMES@[22]@) == 22);
    assert(listed_position(MATH_OPERATION_NAMES@[23]@) == 23);
    assert(listed_position(MATH_OPERATION_NAMES@[24]@) == 24);
    assert(listed_position(MATH_OPERATION_NAMES@[25]@) == 25);
    assert(listed_position(MATH_OPERATION_NAMES@[26]@) == 26);
    assert(listed_position(MATH_OPERATION_NAMES@[27]@) == 27);
    assert(listed_position(MATH_OPERATION_NAMES@[28]@) == 28);
    assert(listed_position(MATH_OPERATION_NAMES@[29]@) == 29);
    assert(listed_position(MATH_OPERATION_NAMES@[30]@) == 30);
    assert(listed_position(MATH_OPERATION_NAMES@[31]@) == 31);
    assert(listed_position(MATH_OPERATION_NAMES@[32]@) == 32);
    assert(listed_position(MATH_OPERATION_NAMES@[33]@) == 33);
    assert(listed_position(MATH_OPERATION_NAMES@[34]@) == 34);
    assert(listed_position(MATH_OPERATION_NAMES@[35]@) == 35);
    assert(listed_position(MATH_OPERATION_NAMES@[36]@) == 36);
    assert(listed_position(MATH_OPERATION_NAMES@[37]@) == 37);
    assert(listed_position(MATH_OPERATION_NAMES@[38]@) == 38);
    assert(listed_position(MATH_OPERATION_NAMES@[39]@) == 39);
    assert(listed_position(MATH_OPERATION_NAMES@[40]@) == 40);
    assert(listed_position(MATH_OPERATION_NAMES@[41]@) == 41);
    assert(listed_position(MATH_OPERATION_NAMES@[42]@) == 42);
    assert(listed_position(MATH_OPERATION_NAMES@[43]@) == 43);
    assert(listed_position(MATH_OPERATION_NAMES@[44]@) == 44);
    assert(listed_position(MATH_OPERATION_NAMES@[45]@) == 45);
    assert(listed_position(MATH_OPERATION_NAMES@[46]@) == 46);
    assert(listed_position(MATH_OPERATION_NAMES@[47]@) == 47);
    assert(listed_position(MATH_OPERATION_NAMES@[48]@) == 48);
    assert("1"@[0] != "0"@[0]);
    assert(listed_position(MATH_OPERATION_NAMES@[49]@) == 49);
    assert(listed_position(MATH_OPERATION_NAMES@[50]@) == 50);
    assert(listed_position(MATH_OPERATION_NAMES@[51]@) == 51);
    assert(listed_position(MATH_OPERATION_NAMES@[52]@) == 52);
    assert(listed_position(MATH_OPERATION_NAMES@[53]@) == 53);
    assert forall|i: int| 0 <= i < 54 implies #[trigger] listed_position(MATH_OPERATION_NAMES@[i]@) == i by {
        assert(i == 0 || i == 1 || i == 2 || i == 3 || i == 4 || i == 5 || i == 6 || i == 7 || i == 8 || i == 9 || i == 10 || i == 11 || i == 12 || i == 13 || i == 14 || i == 15 || i == 16 || i == 17 || i == 18 || i == 19 || i == 20 || i == 21 || i == 22 || i == 23 || i == 24 || i == 25 || i == 26 || i == 27 || i == 28 || i == 29 || i == 30 || i == 31 || i == 32 || i == 33 || i == 34 || i == 35 || i == 36 || i == 37 || i == 38 || i == 39 || i == 40 || i == 41 || i == 42 || i == 43 || i == 44 || i == 45 || i == 46 || i == 47 || i == 48 || i == 49 || i == 50 || i == 51 || i == 52 || i == 53);
    }
    assert forall|i: int, j: int| 0 <= i < j < 54 implies #[trigger] MATH_OPERATION_NAMES@[i]@
        != #[trigger] MATH_OPERATION_NAMES@[j]@ by {
        assert(listed_position(MATH_OPERATION_NAMES@[i]@) == i);
        assert(listed_position(MATH_OPERATION_NAMES@[j]@) == j);
    }
}

fn key_is(key: &String, name: &str) -> (same: bool)
    ensures
        same == (key@ == name@),
{
    *key == String::from_str(name)
}

fn key_is_one_of(key: &String, a: &str, b: &str, c: &str, d: &str) -> (same: bool)
    ensures
        same == (key@ == a@ || key@ == b@ || key@ == c@ || key@ == d@),
{
    key_is(key, a) || key_is(key, b) || key_is(key, c) || key_is(key, d)
}

/// Looks a cleaned key up among the operations.
pub fn math_operation(key: &String) -> (op: Option<MathOperation>)
    ensures
        op == math_operation_of(key@),
{
    if key_is_one_of(key, "sin", "sine", "sin()", "sinus") {
        Some(MathOperation::Sine)
    } else if key_is_one_of(key, "cos", "cosine", "cos()", "kosinus") {
        Some(MathOperation::Cosine)
    } else if key_is_one_of(key, "tan", "tangent", "tan()", "tangens") {
        Some(MathOperation::Tangent)
    } else if key_is_one_of(key, "asin", "arcsin", "asin()", "arcsinus") {
        Some(MathOperation::ArcSine)
    } else if key_is_one_of(key, "acos", "arccos", "acos()", "arccosinus") {
        Some(MathOperation::ArcCosine)
    } else if key_is_one_of(key, "atan", "arctan", "atan()", "arctangens") {
        Some(MathOperation::ArcTangent)
    } else if key_is_one_of(key, "-sin", "-sine", "-sin()", "-sinus") {
        Some(MathOperation::NegativeSine)
    } else if key_is_one_of(key, "-cos", "-cosine", "-cos()", "-kosinus") {
        Some(MathOperation::NegativeCosine)
    } else if key_is_one_of(key, "-tan", "-tangent", "-tan()", "-tangens") {
        Some(MathOperation::NegativeTangent)
    } else if key_is_one_of(key, "-asin", "-arcsin", "-asin()", "-arcsinus") {
        Some(MathOperation::NegativeArcSine)
    } else if key_is_one_of(key, "-acos", "-arccos", "-acos()", "-arccosinus") {
        Some(MathOperation::NegativeArcCosine)
    } else if key_is_one_of(key, "-atan", "-arctan", "-atan()", "-arctangens") {
        Some(MathOperation::NegativeArcTangent)
    } else if key_is(key, "0") || key_is(key, "0.0") {
        Some(MathOperation::Zero)
    } else if key_is(key, "1") || key_is(key, "1.0") {
        Some(MathOperation::Identity)
    } else if key_is(key, "-1") || key_is(key, "-1.0") {
        Some(MathOperation::Negation)
    } else {
        None
    }
}

/// What a matrix entry stands for: a named operation, or a cleaned key that is to be read as
/// a number.
#[derive(Clone, Debug)]
pub enum MatrixEntry {
    Operation(MathOperation),
    Number(String),
}

/// `entry` is what the cleaned key `key` stands for.
pub open spec fn entry_for_key(entry: MatrixEntry, key: Seq<char>) -> bool {
    match entry {
        MatrixEntry::Operation(op) => math_operation_of(key) == Some(op),
        MatrixEntry::Number(text) => math_operation_of(key) is None && text@ == key,
    }
}

/// Reads one entry of a rotation matrix: its cleaned key either names an operation or is
/// handed on as text to be read as a number.
pub fn classify_matrix_entry(element: &str) -> (entry: MatrixEntry)
    ensures
        entry_for_key(entry, cleaned(lowercase_of(element@))),
{
    let key = clean_key(element);
    match math_operation(&key) {
        Some(op) => MatrixEntry::Operation(op),
        None => MatrixEntry::Number(key),
    }
}

/// A rotation matrix whose entries are given as text, one array per row.
#[derive(Clone, Debug)]
pub struct StringRotationMatrix {
    pub line_x: [String; 3],
    pub line_y: [String; 3],
    pub line_z: [String; 3],
}

impl StringRotationMatrix {
    /// The entry in row `r` (0 for x, 1 for y, 2 for z) and column `c`.
    pub open spec fn entry_text(&self, r: int, c: int) -> Seq<char> {
        if r == 0 {
            self.line_x@[c]@
        } else if r == 1 {
            self.line_y@[c]@
        } else {
            self.line_z@[c]@
        }
    }

    /// Reads all nine entries, row by row: `entries[3 * r + c]` is the entry in row `r` and
    /// column `c`.
    pub fn classify_entries(&self) -> (entries: Vec<MatrixEntry>)
        ensures
            entries.len() == 9,
            forall|r: int, c: int|
                0 <= r < 3 && 0 <= c < 3 ==> entry_for_key(
                    #[trigger] entries@[3 * r + c],
                    cleaned(lowercase_of(self.entry_text(r, c))),
                ),
    {
        let mut entries: Vec<MatrixEntry> = Vec::new();
        let mut r: usize = 0;
        while r < 3
            invariant
                r <= 3,
                entries.len() == 3 * r,
                forall|r2: int, c: int|
                    0 <= r2 < r && 0 <= c < 3 ==> entry_for_key(
                        #[trigger] entries@[3 * r2 + c],
                        cleaned(lowercase_of(self.entry_text(r2, c))),
                    ),
            decreases 3 - r,
        {
            let mut c: usize = 0;
            while c < 3
                invariant
                    r < 3,
                    c <= 3,
                    entries.len() == 3 * r + c,
                    forall|r2: int, c2: int|
                        (0 <= r2 < r && 0 <= c2 < 3) || (r2 == r && 0 <= c2 < c) ==> entry_for_key(
                            #[trigger] entries@[3 * r2 + c2],
                            cleaned(lowercase_of(self.entry_text(r2, c2))),
                        ),
                decreases 3 - c,
            {
                let text: &String = if r == 0 {
                    &self.line_x[c]
                } else if r == 1 {
                    &self.line_y[c]
                } else {
                    &self.line_z[c]
                };
                assert(text@ == self.entry_text(r as int, c as int));
                let entry = classify_matrix_entry(text.as_str());
                entries.push(entry);
                c = c + 1;
            }
            r = r + 1;
        }
        entries
    }
}

} // verus!
