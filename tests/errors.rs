use chat_relay::{fail_with_error, BigError, MyError};

#[test]
fn fail_with_error_is_custom() {
    match fail_with_error() {
        Err(MyError::Custom(m)) => assert_eq!(m, "An error occurred"),
        other => panic!("unexpected {:?}", other),
    }
}

#[test]
fn big_error_renders_fields() {
    let mut c = [0u8; 64];
    c[1] = 7;
    c[63] = 255;
    let e = BigError::new(
        String::from("x"),
        vec![String::from("p"), String::from("q\"r")],
        c,
        1234567890,
    );
    let mut bytes = Vec::new();
    for v in c.iter() {
        bytes.push(v.to_string());
    }
    let expected = format!(
        "BigError {{ a: x, b: [\"p\", \"q\\\"r\"], c: [{}], d: 1234567890 }}",
        bytes.join(", ")
    );
    assert_eq!(e.render(), expected);
}

#[test]
fn big_error_with_no_strings() {
    let e = BigError::new(String::new(), Vec::new(), [9u8; 64], 0);
    let r = e.render();
    assert!(r.starts_with("BigError { a: , b: [], c: [9, 9, "));
    assert!(r.ends_with("9, 9], d: 0 }"));
}
