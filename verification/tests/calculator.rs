use ai_training::tools::calculator::{eval, format_number, plan, Amount, Fault, Plan, Step, Tok};
use ai_training::tools::machine::{answer, Calculator, Failure, Operation};

fn apply(op: Operation, a: f64, b: f64) -> Option<f64> {
    match op {
        Operation::Add => Some(a + b),
        Operation::Subtract => Some(a - b),
        Operation::Multiply => Some(a * b),
        Operation::Divide => {
            if b == 0.0 {
                None
            } else {
                Some(a / b)
            }
        }
    }
}

fn value(expr: &str) -> Result<f64, Failure> {
    eval(expr, |s: &str| s.parse::<f64>().unwrap(), |a: f64| -a, apply)
}

fn amount(v: f64) -> Amount {
    if v.is_finite() && v.fract() == 0.0 && v.abs() < 1e15 {
        Amount::Whole(v as i64)
    } else {
        Amount::Fixed(format!("{v:.6}"))
    }
}

fn shown(v: f64) -> String {
    format_number(&amount(v))
}

#[test]
fn arithmetic() {
    assert_eq!(value("2334*9834").unwrap(), 22952556.0);
    assert_eq!(value("2+3*4").unwrap(), 14.0);
    assert_eq!(value("(2+3)*4").unwrap(), 20.0);
    assert_eq!(value("-5+2").unwrap(), -3.0);
    assert_eq!(value("240*15/100").unwrap(), 36.0);
    assert_eq!(value("1,000+1").unwrap(), 1001.0);
}

#[test]
fn formatting() {
    assert_eq!(shown(22952556.0), "22952556");
    assert_eq!(shown(3.5), "3.5");
}

#[test]
fn errors() {
    assert!(value("1/0").is_err());
    assert!(value("2+").is_err());
    assert!(value("(1+2").is_err());
}

#[test]
fn operators_associate_to_the_left() {
    assert_eq!(value("10-4-3").unwrap(), 3.0);
    assert_eq!(value("100/10/5").unwrap(), 2.0);
    assert_eq!(value("2 * (3 + 4) - -1").unwrap(), 15.0);
}

#[test]
fn signs_stack_and_white_space_is_skipped() {
    assert_eq!(value("--5").unwrap(), 5.0);
    assert_eq!(value("+-+5").unwrap(), -5.0);
    assert_eq!(value(" \t1\n+\r 2 ").unwrap(), 3.0);
    assert_eq!(value(".5+1.").unwrap(), 1.5);
}

#[test]
fn plans_are_postfix() {
    let made: Plan = plan("2+3*4");
    assert!(made.fault.is_none());
    let steps: Vec<String> = made.steps.iter().map(|s| format!("{s:?}")).collect();
    assert_eq!(
        steps,
        vec!["Push(\"2\")", "Push(\"3\")", "Push(\"4\")", "Multiply", "Add"]
    );
}

#[test]
fn unary_minus_binds_to_the_factor() {
    let made: Plan = plan("-5+2");
    assert!(matches!(made.steps[1], Step::Negate));
    assert!(matches!(made.steps[3], Step::Add));
}

#[test]
fn each_fault_is_told() {
    assert!(matches!(plan("1.2.3").fault, Some(Fault::BadNumber(t)) if t == "1.2.3"));
    assert!(matches!(plan(".").fault, Some(Fault::BadNumber(t)) if t == "."));
    assert!(matches!(plan("2 x 3").fault, Some(Fault::UnexpectedChar('x'))));
    assert!(matches!(plan("2+").fault, Some(Fault::UnexpectedToken(None))));
    assert!(matches!(plan("2+*3").fault, Some(Fault::UnexpectedToken(Some(Tok::Star)))));
    assert!(matches!(plan("").fault, Some(Fault::UnexpectedToken(None))));
    assert!(matches!(plan("(1+2").fault, Some(Fault::ExpectedParen)));
    assert!(matches!(plan("1,0 2").fault, Some(Fault::TrailingInput(t)) if t == "10 2"));
    assert!(matches!(plan("1)").fault, Some(Fault::TrailingInput(t)) if t == "1)"));
}

#[test]
fn division_by_zero_comes_before_a_later_fault() {
    assert!(matches!(value("1/0"), Err(Failure::DivisionByZero)));
    assert!(matches!(value("1/0+"), Err(Failure::DivisionByZero)));
    assert!(matches!(value("1/(2-2)*3"), Err(Failure::DivisionByZero)));
    assert!(matches!(value("1/0 2"), Err(Failure::DivisionByZero)));
    assert!(matches!(value("(1"), Err(Failure::Malformed(Fault::ExpectedParen))));
}

#[test]
fn plans_run_on_other_numbers() {
    let r = eval(
        "7*6-2",
        |s: &str| s.parse::<i128>().unwrap(),
        |a: i128| -a,
        |o, a: i128, b: i128| match o {
            Operation::Add => Some(a + b),
            Operation::Subtract => Some(a - b),
            Operation::Multiply => Some(a * b),
            Operation::Divide => a.checked_div(b),
        },
    );
    assert_eq!(r.unwrap(), 40);
}

#[test]
fn the_calculator_answers_as_a_tool() {
    let c = Calculator {
        num: |s: &str| s.parse::<f64>().unwrap(),
        neg: |a: f64| -a,
        op: apply,
        show: amount,
    };
    assert_eq!(format_number(&answer(&c, "2334*9834").unwrap()), "22952556");
    assert_eq!(format_number(&answer(&c, "7/2").unwrap()), "3.5");
    assert!(answer(&c, "1/0").is_none());
    assert!(answer(&c, "two").is_none());
}

#[test]
fn whole_numbers_are_shown_as_integers() {
    assert_eq!(shown(0.0), "0");
    assert_eq!(shown(-3.0), "-3");
    assert_eq!(format_number(&Amount::Whole(i64::MIN)), "-9223372036854775808");
    assert_eq!(format_number(&Amount::Whole(i64::MAX)), "9223372036854775807");
}

#[test]
fn fractions_lose_their_trailing_zeros() {
    assert_eq!(shown(0.25), "0.25");
    assert_eq!(shown(1.0 / 3.0), "0.333333");
    assert_eq!(shown(1e-9), "0");
    assert_eq!(shown(1e15), "1000000000000000");
    assert_eq!(shown(f64::INFINITY), "inf");
    assert_eq!(shown(f64::NAN), "NaN");
}
