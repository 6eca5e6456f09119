use bigcalc::evaluation::eval_expression;

fn eval_chars(s: &str) -> Result<u32, String> {
    let v: Vec<char> = s.chars().collect();
    match eval_expression(&v) {
        Ok(n) => Ok(n.to_u32().expect("result fits in u32")),
        Err(m) => Err(m),
    }
}

fn assert_success(s: &str, result: u32) {
    assert_eq!(eval_chars(s), Ok(result));
}

fn assert_failure(s: &str, msg: &str) {
    assert_eq!(eval_chars(s), Err(msg.to_string()));
}

#[test]
fn evaluation_test() {
    assert_success("0", 0);
    assert_success("0x1b", 27);
    assert_success("1+2*3", 7);
    assert_success("(1+2)*3", 9);
    assert_success("4**3**2", 262144);
    assert_success("-(-10!)", 3628800);
    assert_failure("", "Missing number");
    assert_failure("-42", "Input is negative");
    assert_failure("ほげ", "Unexpected character 'ほ'");
    assert_failure("(1+2*3", "Unclosed parenthesis");
    assert_failure("2**(-3)", "Negative exponent");
    assert_failure("(-10)!", "Negative factorial");
}

#[test]
fn radix_round_trip_test() {
    assert_success("0b11011", 27);
    assert_success("0o33", 27);
    assert_success("0x1b", 27);
    assert_success("27", 27);
    assert_success("0xff", 255);
    assert_success("0b0", 0);
}

#[test]
fn operator_test() {
    assert_success("7/2", 3);
    assert_success("7%2", 1);
    assert_success("1-(0-7)/2", 4);
    assert_success("0-(0-7)%2", 1);
    assert_success("2**0", 1);
    assert_success("0**0", 1);
    assert_success("0!", 1);
    assert_success("1!", 1);
    assert_success("+5", 5);
    assert_success("2*3*4", 24);
    assert_success("10-2-3", 5);
}

#[test]
fn error_test() {
    assert_failure("2/0", "Division by zero");
    assert_failure("2%0", "Modulo by zero");
    assert_failure("2**99999999999", "Exponent too big");
    assert_failure("99999999999!", "Factorial too big");
    assert_failure("0x", "Missing number");
    assert_failure("0xg", "Unexpected character 'g'");
    assert_failure("1+", "Missing number");
}

#[test]
fn big_value_test() {
    // 2^128 rendered back as little-endian bytes through the byte boundary
    let v: Vec<char> = "2**128".chars().collect();
    let n = eval_expression(&v).expect("evaluates");
    let bytes = n.to_bytes_le();
    let mut expected = vec![0u8; 16];
    expected.push(1);
    assert_eq!(bytes, expected);
}
