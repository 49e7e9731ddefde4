use fannkuch_redux::sum::sum;

#[test]
fn test_call_wasm() {
    let result = sum(3, 4);
    println!("result: {}", result);
    assert_eq!(result, 7);
}

#[test]
fn sum_of_small_operands() {
    assert_eq!(sum(1, 2), 3);
    assert_eq!(sum(-5, 5), 0);
    assert_eq!(sum(i32::MAX - 1, 1), i32::MAX);
}
