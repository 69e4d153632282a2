use gauntlet::error::{Error, SyntaxError};
use gauntlet::models::{LanguageModel, LanguageModelBuilder, WordVec};
use gauntlet::parser::{parse, Expr};

fn add_vec(a: &WordVec, b: &WordVec, label: String) -> WordVec {
    assert_eq!(a.vec.len(), b.vec.len());
    let vec = a.vec
        .iter()
        .zip(b.vec.iter())
        .map(|(x, y)| (f32::from_bits(*x) + f32::from_bits(*y)).to_bits())
        .collect();
    WordVec { word: label, vec }
}

fn sub_vec(a: &WordVec, b: &WordVec, label: String) -> WordVec {
    assert_eq!(a.vec.len(), b.vec.len());
    let vec = a.vec
        .iter()
        .zip(b.vec.iter())
        .map(|(x, y)| (f32::from_bits(*x) - f32::from_bits(*y)).to_bits())
        .collect();
    WordVec { word: label, vec }
}

fn div_vec(a: &WordVec, n: i32) -> WordVec {
    let vec = a.vec.iter().map(|x| (f32::from_bits(*x) / n as f32).to_bits()).collect();
    WordVec { word: a.word.clone(), vec }
}

fn value(expr: &Expr, model: &LanguageModel) -> WordVec {
    match expr {
        Expr::Word(i) => model.vector(*i).clone(),
        Expr::Add(l, r) => add_vec(&value(l, model), &value(r, model), expr.label(model)),
        Expr::Sub(l, r) => sub_vec(&value(l, model), &value(r, model), expr.label(model)),
        Expr::Div(l, n) => div_vec(&value(l, model), *n),
    }
}

fn evaluate(text: &str, model: &LanguageModel) -> Result<WordVec, Error> {
    parse(text, model).map(|e| value(&e, model))
}

fn get_model() -> LanguageModel {
    let words = vec!["a".to_string(), "b".to_string(), "c".to_string()];
    let mut builder = LanguageModelBuilder::new(1, words);

    let pairs = {
        let mut acc = builder.new_sentence();
        let text = "x x a a b a c b x x";
        for word in text.split(' ') {
            acc.add_word(word);
        }
        acc.commit()
    };
    for p in pairs {
        let old = f32::from_bits(builder.row(p.from).vec[p.to]);
        builder.set_weight(p.from, p.to, (old + 1.0 / p.dist as f32).to_bits());
    }
    for i in 0..builder.len() {
        let row: Vec<f32> = builder.row(i).vec.iter().map(|b| f32::from_bits(*b)).collect();
        let sum = row.iter().fold(0f32, |x, y| x + *y);
        for (j, v) in row.iter().enumerate() {
            builder.set_weight(i, j, (v / (sum + 1.0)).to_bits());
        }
    }

    builder.build()
}

fn word(i: usize) -> Box<Expr> {
    Box::new(Expr::Word(i))
}

fn syntax(text: &str, model: &LanguageModel) -> SyntaxError {
    match parse(text, model) {
        Err(Error::SyntaxError(e)) => e,
        other => panic!("{:?}", other),
    }
}

#[test]
fn test_addition() {
    let model = get_model();
    assert_eq!(evaluate("a - b + c", &model).unwrap(),
               evaluate("(a - b) + c", &model).unwrap());
    assert_eq!(evaluate("a + (b - c)", &model).unwrap(),
               evaluate("(a + b) - c", &model).unwrap());
    assert_eq!(evaluate("a + b - c)", &model),
               Err(Error::SyntaxError(SyntaxError::UnmatchedParen(")".to_string()))));
    assert_eq!(evaluate("a + b - c", &model).unwrap(),
               evaluate("a - c + b", &model).unwrap());
    assert!(evaluate("a + b", &model) != evaluate("a - b", &model));
}

#[test]
fn test_division() {
    let model = get_model();
    let a = model.get("a").unwrap().clone();
    println!("{:?} == {:?}", a, add_vec(&a.clone(), &a, "a + a".to_string()));
    assert!(a == div_vec(&add_vec(&a.clone(), &a, "a + a".to_string()), 2));
}

#[test]
fn test_div_expression() {
    let model = get_model();
    let a = model.get("a").unwrap().clone();
    assert_eq!(a, evaluate("(a + a) / 2", &model).unwrap());
}

#[test]
fn division_identity_for_every_word() {
    let model = get_model();
    for w in ["a", "b", "c"] {
        let text = format!("({} + {}) / 2", w, w);
        assert_eq!(*model.get(w).unwrap(), evaluate(&text, &model).unwrap());
    }
}

#[test]
fn grouping_to_the_left() {
    let model = get_model();
    let tree = Expr::Add(Box::new(Expr::Sub(word(0), word(1))), word(2));
    assert_eq!(parse("a - b + c", &model), Ok(Expr::Add(Box::new(Expr::Sub(word(0), word(1))),
                                                        word(2))));
    assert_eq!(parse("(a - b) + c", &model), Ok(tree));
    assert_eq!(parse("a + (b - c)", &model),
               Ok(Expr::Add(word(0), Box::new(Expr::Sub(word(1), word(2))))));
    assert_eq!(parse("a-b-c-a", &model),
               Ok(Expr::Sub(Box::new(Expr::Sub(Box::new(Expr::Sub(word(0), word(1))), word(2))),
                            word(0))));
}

#[test]
fn atoms_and_terms() {
    let model = get_model();
    assert_eq!(parse("b", &model), Ok(Expr::Word(1)));
    assert_eq!(parse("  (b)  ", &model), Ok(Expr::Word(1)));
    assert_eq!(parse("((c))", &model), Ok(Expr::Word(2)));
    assert_eq!(parse("c / 3", &model), Ok(Expr::Div(word(2), 3)));
    assert_eq!(parse("a + b / 2", &model),
               Ok(Expr::Add(word(0), Box::new(Expr::Div(word(1), 2)))));
    assert_eq!(parse("(a + b) / 2147483647", &model),
               Ok(Expr::Div(Box::new(Expr::Add(word(0), word(1))), 2147483647)));
    assert_eq!(parse("(a / 2) / 4", &model),
               Ok(Expr::Div(Box::new(Expr::Div(word(0), 2)), 4)));
}

#[test]
fn unmatched_closing_parenthesis() {
    let model = get_model();
    let unmatched = SyntaxError::UnmatchedParen(")".to_string());
    assert_eq!(syntax("a + b - c)", &model), unmatched);
    assert_eq!(syntax("a)", &model), unmatched);
    assert_eq!(syntax("a) $ (", &model), unmatched);
    assert_eq!(syntax("(a))", &model), unmatched);
    assert_eq!(syntax("(a + b) / 2 ) + c", &model), unmatched);
    assert_eq!(syntax("a + b) - (c", &model), unmatched);
    assert_eq!(parse("(a + b) - (c)", &model),
               Ok(Expr::Sub(Box::new(Expr::Add(word(0), word(1))), word(2))));
}

#[test]
fn empty_expression() {
    let model = get_model();
    assert_eq!(syntax("", &model), SyntaxError::UnexpectedEnd);
    assert_eq!(syntax("   ", &model), SyntaxError::UnexpectedEnd);
    assert_eq!(syntax("a +", &model), SyntaxError::UnexpectedEnd);
    assert_eq!(syntax("(", &model), SyntaxError::UnexpectedEnd);
}

#[test]
fn leading_operator() {
    let model = get_model();
    assert_eq!(syntax("+ a", &model), SyntaxError::UnexpectedToken("+".to_string()));
    assert_eq!(syntax("- a", &model), SyntaxError::UnexpectedToken("-".to_string()));
    assert_eq!(syntax("/ 2", &model), SyntaxError::UnexpectedToken("/".to_string()));
    assert_eq!(syntax(") a", &model), SyntaxError::UnexpectedToken(")".to_string()));
    assert_eq!(syntax("12", &model), SyntaxError::UnexpectedToken("12".to_string()));
    assert_eq!(syntax("a + + b", &model), SyntaxError::UnexpectedToken("+".to_string()));
    assert_eq!(syntax("a + ()", &model), SyntaxError::UnexpectedToken(")".to_string()));
}

#[test]
fn unknown_word() {
    let model = get_model();
    assert_eq!(parse("zzzznotaword", &model), Err(Error::UnknownWord("zzzznotaword".to_string())));
    assert_eq!(parse("a + d - e", &model), Err(Error::UnknownWord("d".to_string())));
    assert_eq!(parse("(a + ab", &model), Err(Error::UnknownWord("ab".to_string())));
}

#[test]
fn invalid_divisor() {
    let model = get_model();
    assert_eq!(syntax("a / 0", &model), SyntaxError::InvalidDivisor("0".to_string()));
    assert_eq!(syntax("a / 000", &model), SyntaxError::InvalidDivisor("0".to_string()));
    assert_eq!(syntax("a / b", &model), SyntaxError::InvalidDivisor("b".to_string()));
    assert_eq!(syntax("a / (", &model), SyntaxError::InvalidDivisor("(".to_string()));
    assert_eq!(syntax("a / -2", &model), SyntaxError::InvalidDivisor("-".to_string()));
    assert_eq!(syntax("a / 2147483648", &model),
               SyntaxError::InvalidDivisor("2147483648".to_string()));
    assert_eq!(syntax("a /", &model), SyntaxError::MissingDivisor);
    assert_eq!(syntax("(a + b) / ", &model), SyntaxError::MissingDivisor);
}

#[test]
fn unclosed_parenthesis() {
    let model = get_model();
    assert_eq!(syntax("(a", &model), SyntaxError::UnclosedParen);
    assert_eq!(syntax("(a + b", &model), SyntaxError::UnclosedParen);
    assert_eq!(syntax("((a + b) - c", &model), SyntaxError::UnclosedParen);
}

#[test]
fn misplaced_tokens() {
    let model = get_model();
    assert_eq!(syntax("a b", &model), SyntaxError::Misplaced("b".to_string()));
    assert_eq!(syntax("a (b)", &model), SyntaxError::Misplaced("(".to_string()));
    assert_eq!(syntax("a 2", &model), SyntaxError::Misplaced("2".to_string()));
    assert_eq!(syntax("a / 2 / 3", &model), SyntaxError::Misplaced("/".to_string()));
    assert_eq!(syntax("(a b)", &model), SyntaxError::Misplaced("b".to_string()));
}

#[test]
fn invalid_characters() {
    let model = get_model();
    assert_eq!(syntax("a * b", &model), SyntaxError::Untokenizable("*".to_string()));
    assert_eq!(syntax("a B", &model), SyntaxError::Untokenizable("B".to_string()));
    assert_eq!(syntax("a 99999999999", &model),
               SyntaxError::Untokenizable("99999999999".to_string()));
    assert_eq!(syntax("? a", &model), SyntaxError::UnexpectedToken("?".to_string()));
    assert_eq!(syntax("a + é", &model), SyntaxError::UnexpectedToken("é".to_string()));
}

#[test]
fn the_first_error_is_reported() {
    let model = get_model();
    assert_eq!(parse("zz + (", &model), Err(Error::UnknownWord("zz".to_string())));
    assert_eq!(syntax("a / 0 + zz", &model), SyntaxError::InvalidDivisor("0".to_string()));
    assert_eq!(syntax("(a * zz", &model), SyntaxError::Untokenizable("*".to_string()));
}

#[test]
fn syntax_error_messages() {
    let model = get_model();
    let message = |text: &str| parse(text, &model).unwrap_err().message();
    assert_eq!(message(""), "Invalid end of expression");
    assert_eq!(message("+ a"), "Invalid token +");
    assert_eq!(message("a b"), "'b' found in invalid position");
    assert_eq!(message("a ? b"), "'?' could not be tokenized");
    assert_eq!(message("(a"), "Unclosed parentheses");
    assert_eq!(message("a)"), "')' closes no parenthesis");
    assert_eq!(message("a /"), "An expression may not end with a division operator");
    assert_eq!(message("a / 0"), "'0' is not a valid numerator: must be an integer");
    assert_eq!(message("zzzznotaword"), "'zzzznotaword' is not present in the language model");
}

#[test]
fn labels_of_expressions() {
    let model = get_model();
    let label = |text: &str| parse(text, &model).unwrap().label(&model);
    assert_eq!(label("a"), "a");
    assert_eq!(label("a+b"), "a + b");
    assert_eq!(label("(a - b) + c"), "a - b + c");
    assert_eq!(label("a + (b - c)"), "a + b - c");
    assert_eq!(label("(a + a) / 2"), "a + a");
    assert_eq!(evaluate("c - a / 3", &model).unwrap().word, "c - a");
}

#[test]
fn sum_and_difference_differ() {
    let model = get_model();
    for w in ["a", "b", "c"] {
        let sum = evaluate(&format!("a + {}", w), &model).unwrap();
        let difference = evaluate(&format!("a - {}", w), &model).unwrap();
        assert!(sum != difference);
    }
}

#[test]
fn values_of_expressions() {
    let model = get_model();
    let floats = |text: &str| -> Vec<f32> {
        evaluate(text, &model).unwrap().vec.iter().map(|b| f32::from_bits(*b)).collect()
    };
    assert_eq!(floats("b"), vec![0.5, 0.0, 0.25]);
    assert_eq!(floats("b + b"), vec![1.0, 0.0, 0.5]);
    assert_eq!(floats("b - b"), vec![0.0, 0.0, 0.0]);
    assert_eq!(floats("b / 2"), vec![0.25, 0.0, 0.125]);
    assert_eq!(floats("(b + b + b) / 4"), vec![0.375, 0.0, 0.1875]);
}
