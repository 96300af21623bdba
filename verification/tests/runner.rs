use mova::error::MovaError;
use mova::interpreter::Data;
use mova::runner::run;

#[test]
fn one_plus_two_is_three() {
    assert_eq!(run("1 + 2"), Ok(Some(Data::Number(3))));
}

#[test]
fn a_function_of_two_parameters_is_called() {
    assert_eq!(run("fn add(a, b) = a + b  add(4, 5)"), Ok(Some(Data::Number(9))));
}

#[test]
fn a_block_body_sees_its_parameter() {
    assert_eq!(run("fn f(n) = { let m = n  m + 1 }  f(41)"), Ok(Some(Data::Number(42))));
}

#[test]
fn division_by_zero_is_a_runtime_error() {
    assert_eq!(
        run("fn fact(n) = { }  let z = 6 / 0"),
        Err(MovaError::Runtime("Division by zero".into()))
    );
}

#[test]
fn product_binds_tighter_than_sum() {
    assert_eq!(run("let a = 2  let b = 3  a * b + 1"), Ok(Some(Data::Number(7))));
    assert_eq!(run("let a = 2  let b = 3  1 + a * b"), Ok(Some(Data::Number(7))));
}

#[test]
fn division_rounds_toward_zero() {
    assert_eq!(run("7 / 2"), Ok(Some(Data::Number(3))));
    assert_eq!(run("let m = 0 - 7  m / 2"), Ok(Some(Data::Number(-3))));
    assert_eq!(run("let m = 0 - 2  7 / m"), Ok(Some(Data::Number(-3))));
    assert_eq!(run("let m = 0 - 7  let n = 0 - 2  m / n"), Ok(Some(Data::Number(3))));
}

#[test]
fn an_empty_block_has_no_value() {
    assert_eq!(run("{}"), Ok(None));
    assert_eq!(run("{ let x = 1 }"), Ok(None));
    assert_eq!(run(""), Ok(None));
}

#[test]
fn a_function_without_parameters_is_callable() {
    assert_eq!(run("fn seven() = 7  seven()"), Ok(Some(Data::Number(7))));
}

#[test]
fn a_long_program_runs() {
    let mut source = String::new();
    for i in 0..3000 {
        source.push_str(&format!("let v{i} = {i} // binding {i}\n"));
    }
    source.push_str("v0");
    for i in 1..200 {
        source.push_str(&format!(" + v{i}"));
    }
    assert_eq!(run(&source), Ok(Some(Data::Number((0..200).sum()))));
}

#[test]
fn a_run_repeats() {
    let source = "fn f(n) = { let m = n  m + 1 }  let r = f&  f(41)";
    assert_eq!(run(source), run(source));
    assert_eq!(
        run(source),
        Err(MovaError::Runtime("Unable to move 'f' because it is borrowed".into()))
    );
}
