use quickcheck::quickcheck;
use std::collections::VecDeque;
use succinct::coding::{Comma, Delta, Elias, Fibonacci, Gamma, Lift0, Omega, Unary, UniversalCode};

const GAMMA: Gamma = Elias(Unary);
const DELTA: Delta = Elias(Lift0(GAMMA));
const COMMA: Comma = Comma(2);

/// Encodes the values one after another, then decodes until the end.
fn code_decode<Code: UniversalCode>(code: &Code, values: Vec<u64>) -> bool {
    let mut dv = VecDeque::<bool>::new();
    for &value in &values {
        code.encode(&mut dv, value).unwrap();
    }
    let mut result = Vec::new();
    while let Some(value) = code.decode(&mut dv).unwrap() {
        result.push(value);
    }
    result == values
}

fn nonzero(values: Vec<u64>) -> Vec<u64> {
    values.into_iter().map(|v| if v == 0 { 1 } else { v }).collect()
}

#[test]
fn test234() {
    let mut dv = VecDeque::<bool>::new();

    Unary.encode(&mut dv, 2).unwrap();
    Unary.encode(&mut dv, 3).unwrap();
    Unary.encode(&mut dv, 4).unwrap();

    assert_eq!(Some(2), Unary.decode(&mut dv).unwrap());
    assert_eq!(Some(3), Unary.decode(&mut dv).unwrap());
    assert_eq!(Some(4), Unary.decode(&mut dv).unwrap());
    assert_eq!(None, Unary.decode(&mut dv).unwrap());
}

#[test]
fn comma_enc234() {
    let mut dv = VecDeque::<bool>::new();

    COMMA.encode(&mut dv, 2).unwrap();
    COMMA.encode(&mut dv, 3).unwrap();
    COMMA.encode(&mut dv, 4).unwrap();

    assert_eq!(Some(2), COMMA.decode(&mut dv).unwrap());
    assert_eq!(Some(3), COMMA.decode(&mut dv).unwrap());
    assert_eq!(Some(4), COMMA.decode(&mut dv).unwrap());
    assert_eq!(None::<u64>, COMMA.decode(&mut dv).unwrap());
}

#[test]
fn qc_comma2() {
    fn prop(v: Vec<u64>) -> bool {
        code_decode(&Comma(2), v)
    }

    quickcheck(prop as fn(Vec<u64>) -> bool);
}

#[test]
fn qc_comma3() {
    fn prop(v: Vec<u64>) -> bool {
        code_decode(&Comma(3), v)
    }

    quickcheck(prop as fn(Vec<u64>) -> bool);
}

#[test]
fn qc_comma4() {
    fn prop(v: Vec<u64>) -> bool {
        code_decode(&Comma(4), v)
    }

    quickcheck(prop as fn(Vec<u64>) -> bool);
}

#[test]
fn gamma() {
    let mut dv = VecDeque::<bool>::new();

    GAMMA.encode(&mut dv, 2).unwrap();
    GAMMA.encode(&mut dv, 3).unwrap();
    GAMMA.encode(&mut dv, 4).unwrap();

    assert_eq!(Some(2), GAMMA.decode(&mut dv).unwrap());
    assert_eq!(Some(3), GAMMA.decode(&mut dv).unwrap());
    assert_eq!(Some(4), GAMMA.decode(&mut dv).unwrap());
    assert_eq!(None::<u64>, GAMMA.decode(&mut dv).unwrap());
}

#[test]
fn delta() {
    let mut dv = VecDeque::<bool>::new();

    DELTA.encode(&mut dv, 2).unwrap();
    DELTA.encode(&mut dv, 3).unwrap();
    DELTA.encode(&mut dv, 38932).unwrap();
    DELTA.encode(&mut dv, 4).unwrap();

    assert_eq!(Some(2), DELTA.decode(&mut dv).unwrap());
    assert_eq!(Some(3), DELTA.decode(&mut dv).unwrap());
    assert_eq!(Some(38932), DELTA.decode(&mut dv).unwrap());
    assert_eq!(Some(4), DELTA.decode(&mut dv).unwrap());
    assert_eq!(None::<u64>, DELTA.decode(&mut dv).unwrap());
}

#[test]
fn omega() {
    let mut dv = VecDeque::<bool>::new();

    Omega.encode(&mut dv, 2).unwrap();
    Omega.encode(&mut dv, 3).unwrap();
    Omega.encode(&mut dv, 38932).unwrap();
    Omega.encode(&mut dv, 4).unwrap();

    assert_eq!(Some(2), Omega.decode(&mut dv).unwrap());
    assert_eq!(Some(3), Omega.decode(&mut dv).unwrap());
    assert_eq!(Some(38932), Omega.decode(&mut dv).unwrap());
    assert_eq!(Some(4), Omega.decode(&mut dv).unwrap());
    assert_eq!(None::<u64>, Omega.decode(&mut dv).unwrap());
}

#[test]
fn qc_gamma() {
    fn prop_gamma(v: Vec<u64>) -> bool {
        code_decode(&GAMMA, nonzero(v))
    }

    quickcheck(prop_gamma as fn(Vec<u64>) -> bool);
}

#[test]
fn qc_delta() {
    fn prop_delta(v: Vec<u64>) -> bool {
        code_decode(&DELTA, nonzero(v))
    }

    quickcheck(prop_delta as fn(Vec<u64>) -> bool);
}

#[test]
fn qc_omega() {
    fn prop_omega(v: Vec<u64>) -> bool {
        code_decode(&Omega, nonzero(v))
    }

    quickcheck(prop_omega as fn(Vec<u64>) -> bool);
}

#[test]
fn fib_enc234() {
    let mut dv = VecDeque::<bool>::new();

    Fibonacci.encode(&mut dv, 2).unwrap();
    Fibonacci.encode(&mut dv, 3).unwrap();
    Fibonacci.encode(&mut dv, 4).unwrap();

    assert_eq!(Some(2), Fibonacci.decode(&mut dv).unwrap());
    assert_eq!(Some(3), Fibonacci.decode(&mut dv).unwrap());
    assert_eq!(Some(4), Fibonacci.decode(&mut dv).unwrap());
    assert_eq!(None::<u64>, Fibonacci.decode(&mut dv).unwrap());
}

#[test]
fn qc() {
    fn prop(v: Vec<u64>) -> bool {
        // The first Fibonacci number above each value must fit a u64.
        let values = v.into_iter().map(|x| x % 12_200_160_415_121_876_737 + 1).collect();
        code_decode(&Fibonacci, values)
    }

    quickcheck(prop as fn(Vec<u64>) -> bool);
}

#[test]
fn code_words() {
    let mut dv = VecDeque::<bool>::new();
    Unary.encode(&mut dv, 3).unwrap();
    assert_eq!(vec![false, false, false, true], dv.iter().cloned().collect::<Vec<_>>());

    // Gamma of 5 = 0b101: the header 2 in unary, then the two low bits, lowest first.
    let mut dv = VecDeque::<bool>::new();
    GAMMA.encode(&mut dv, 5).unwrap();
    assert_eq!(vec![false, false, true, true, false], dv.iter().cloned().collect::<Vec<_>>());

    // Omega of 5: the group 2 = 0b10, the group 0b101, then a zero.
    let mut dv = VecDeque::<bool>::new();
    Omega.encode(&mut dv, 5).unwrap();
    assert_eq!(vec![true, false, true, false, true, false], dv.iter().cloned().collect::<Vec<_>>());

    // Comma(2) of 5 = 12 in base 3: digits 1 and 2, two bits each lowest first, then 3.
    let mut dv = VecDeque::<bool>::new();
    COMMA.encode(&mut dv, 5).unwrap();
    assert_eq!(vec![true, false, false, true, true, true], dv.iter().cloned().collect::<Vec<_>>());

    // Fibonacci of 4 = 1 + 3: weights 1, 2, 3, then the closing one.
    let mut dv = VecDeque::<bool>::new();
    Fibonacci.encode(&mut dv, 4).unwrap();
    assert_eq!(vec![true, false, true, true], dv.iter().cloned().collect::<Vec<_>>());

    // Lift0 moves zero to one.
    let mut dv = VecDeque::<bool>::new();
    Lift0(GAMMA).encode(&mut dv, 0).unwrap();
    assert_eq!(vec![true], dv.iter().cloned().collect::<Vec<_>>());
    assert_eq!(Some(0), Lift0(GAMMA).decode(&mut dv).unwrap());
    assert!(Lift0(GAMMA).encode(&mut dv, u64::MAX).is_err());
}

#[test]
fn decode_errors() {
    // A unary word that never ends.
    let mut dv: VecDeque<bool> = vec![false, false].into_iter().collect();
    assert!(Unary.decode(&mut dv).is_err());

    // A gamma header without its low bits.
    let mut dv: VecDeque<bool> = vec![false, false, true, true].into_iter().collect();
    assert!(GAMMA.decode(&mut dv).is_err());

    // A comma digit cut short.
    let mut dv: VecDeque<bool> = vec![true].into_iter().collect();
    assert!(COMMA.decode(&mut dv).is_err());

    // Zeros alone are the end of a Fibonacci stream; a lone one is not.
    let mut dv: VecDeque<bool> = vec![false, false, false].into_iter().collect();
    assert_eq!(None, Fibonacci.decode(&mut dv).unwrap());
    let mut dv: VecDeque<bool> = vec![true, false].into_iter().collect();
    assert!(Fibonacci.decode(&mut dv).is_err());

    // An omega group cut short.
    let mut dv: VecDeque<bool> = vec![true].into_iter().collect();
    assert!(Omega.decode(&mut dv).is_err());
}
