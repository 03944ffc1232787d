//! Tests of the text encoder.

use bfuck::text::{text_2_bf, text_2_bytes, store_bf_bytes, print_bf_bytes, factor_table};
use bfuck::error::Error;

/// Checks if a number is prime.
/// Returns whether it is prime and the smallest divisor if not (else 1).
fn is_prime(n: u64) -> (bool, u64) {
    assert!(n >= 2, "Number must be greater than or equal to 2.");

    if n == 2 || n == 3 {
        (true, 1)
    } else if n % 2 == 0 {
        (false, 2)
    } else if n % 3 == 0 {
        (false, 3)
    } else {
        for i in (5..=((n as f64).sqrt().floor() as u64)).step_by(6) {
            if n % i == 0 {
                return (false, i);
            } else if n % (i + 2) == 0 {
                return (false, i + 2);
            }
        }

        (true, 1)
    }
}

#[test]
fn test_text_2_bf() {
    let text = "Brain\nFuck";
    let bf_code = text_2_bf(text).unwrap();

    assert_eq!(bf_code, "++++++++++>>++++++[<+++++++++++>-]>+++++++[<++++++++++>-]>++++++++[<++++++++++++>-]<+>>+++++++++[<+++++++++++>-]>++++++++[<+++++++++++++>-]<+>>+++++++++[<++++++++++++>-]<->>++++++++++[<+++++++++++>-]>++++++++[<++++++++++++++>-]<++>>+++++++++[<+++++++++++++>-]<<<<<<<<<.>>>>>>>.<<<<<.>>.>>.<<<<<<<.>>.>>>>>>>.<<<<<.>>.");
}

#[test]
fn test_text_2_bytes() {
    let text = "Hello, World!";
    let bytes = text_2_bytes(text).unwrap();
    assert_eq!(bytes, vec![72, 101, 108, 108, 111, 44, 32, 87, 111, 114, 108, 100, 33]);

    let text = "\u{1F60A}Hello, World!";
    let error = text_2_bytes(text).unwrap_err();
    assert_eq!(error, Error::NonASCIIChar('\u{1F60A}', 1, 1));
}

#[test]
fn test_store_bf_bytes() {
    let mut all_bytes = Vec::with_capacity(u8::MAX as usize + 1);
    for i in 0..=u8::MAX {
        all_bytes.push(i);
    }

    let bf_code = store_bf_bytes(&all_bytes);

    assert_eq!(bf_code, ">+>++>+++>++++>+++++>++++++>+++++++>++++++++>+++++++++>++++++++++>>+++[<++++>-]<->>+++[<++++>-]>+++[<++++>-]<+>>+++[<+++++>-]<->>+++[<+++++>-]>++++[<++++>-]>++++[<++++>-]<+>>+++[<++++++>-]>++++[<+++++>-]<->>++++[<+++++>-]>++++[<+++++>-]<+>>++++[<+++++>-]<++>>++++[<++++++>-]<->>++++[<++++++>-]>+++++[<+++++>-]>+++++[<+++++>-]<+>>++++[<+++++++>-]<->>++++[<+++++++>-]>+++++[<++++++>-]<->>+++++[<++++++>-]>+++++[<++++++>-]<+>>++++[<++++++++>-]>++++[<++++++++>-]<+>>+++++[<+++++++>-]<->>+++++[<+++++++>-]>++++++[<++++++>-]>++++++[<++++++>-]<+>>++++++[<++++++>-]<++>>+++++[<++++++++>-]<->>+++++[<++++++++>-]>++++++[<+++++++>-]<->>++++++[<+++++++>-]>++++++[<+++++++>-]<+>>+++++[<+++++++++>-]<->>+++++[<+++++++++>-]>+++++[<+++++++++>-]<+>>++++++[<++++++++>-]<->>++++++[<++++++++>-]>+++++++[<+++++++>-]>+++++++[<+++++++>-]<+>>+++++++[<+++++++>-]<++>>++++++[<+++++++++>-]<-->>++++++[<+++++++++>-]<->>++++++[<+++++++++>-]>+++++++[<++++++++>-]<->>+++++++[<++++++++>-]>+++++++[<++++++++>-]<+>>+++++++[<++++++++>-]<++>>++++++[<++++++++++>-]<->>++++++[<++++++++++>-]>++++++[<++++++++++>-]<+>>+++++++[<+++++++++>-]<->>+++++++[<+++++++++>-]>++++++++[<++++++++>-]>++++++++[<++++++++>-]<+>>++++++[<+++++++++++>-]>++++++[<+++++++++++>-]<+>>+++++++[<++++++++++>-]<-->>+++++++[<++++++++++>-]<->>+++++++[<++++++++++>-]>++++++++[<+++++++++>-]<->>++++++++[<+++++++++>-]>++++++++[<+++++++++>-]<+>>++++++++[<+++++++++>-]<++>>+++++++[<+++++++++++>-]<-->>+++++++[<+++++++++++>-]<->>+++++++[<+++++++++++>-]>+++++++[<+++++++++++>-]<+>>++++++++[<++++++++++>-]<->>++++++++[<++++++++++>-]>+++++++++[<+++++++++>-]>+++++++++[<+++++++++>-]<+>>+++++++[<++++++++++++>-]<->>+++++++[<++++++++++++>-]>+++++++[<++++++++++++>-]<+>>++++++++[<+++++++++++>-]<-->>++++++++[<+++++++++++>-]<->>++++++++[<+++++++++++>-]>+++++++++[<++++++++++>-]<->>+++++++++[<++++++++++>-]>+++++++++[<++++++++++>-]<+>>+++++++++[<++++++++++>-]<++>>+++++++++[<++++++++++>-]<+++>>++++++++[<++++++++++++>-]<-->>++++++++[<++++++++++++>-]<->>++++++++[<++++++++++++>-]>++++++++[<++++++++++++>-]<+>>+++++++++[<+++++++++++>-]<->>+++++++++[<+++++++++++>-]>++++++++++[<++++++++++>-]>++++++++++[<++++++++++>-]<+>>++++++++++[<++++++++++>-]<++>>++++++++[<+++++++++++++>-]<->>++++++++[<+++++++++++++>-]>++++++++[<+++++++++++++>-]<+>>+++++++++[<++++++++++++>-]<-->>+++++++++[<++++++++++++>-]<->>+++++++++[<++++++++++++>-]>++++++++++[<+++++++++++>-]<->>++++++++++[<+++++++++++>-]>++++++++++[<+++++++++++>-]<+>>++++++++[<++++++++++++++>-]>++++++++[<++++++++++++++>-]<+>>++++++++[<++++++++++++++>-]<++>>+++++++++[<+++++++++++++>-]<-->>+++++++++[<+++++++++++++>-]<->>+++++++++[<+++++++++++++>-]>+++++++++[<+++++++++++++>-]<+>>++++++++++[<++++++++++++>-]<->>++++++++++[<++++++++++++>-]>+++++++++++[<+++++++++++>-]>+++++++++++[<+++++++++++>-]<+>>+++++++++++[<+++++++++++>-]<++>>+++++++++[<++++++++++++++>-]<-->>+++++++++[<++++++++++++++>-]<->>+++++++++[<++++++++++++++>-]>+++++++++[<++++++++++++++>-]<+>>++++++++[<++++++++++++++++>-]>++++++++++[<+++++++++++++>-]<->>++++++++++[<+++++++++++++>-]>+++++++++++[<++++++++++++>-]<->>+++++++++++[<++++++++++++>-]>+++++++++++[<++++++++++++>-]<+>>+++++++++[<+++++++++++++++>-]<->>+++++++++[<+++++++++++++++>-]>+++++++++[<+++++++++++++++>-]<+>>+++++++++[<+++++++++++++++>-]<++>>++++++++++[<++++++++++++++>-]<-->>++++++++++[<++++++++++++++>-]<->>++++++++++[<++++++++++++++>-]>++++++++++[<++++++++++++++>-]<+>>+++++++++++[<+++++++++++++>-]<->>+++++++++++[<+++++++++++++>-]>++++++++++++[<++++++++++++>-]>++++++++++++[<++++++++++++>-]<+>>++++++++++++[<++++++++++++>-]<++>>++++++++++++[<++++++++++++>-]<+++>>++++++++++[<+++++++++++++++>-]<-->>++++++++++[<+++++++++++++++>-]<->>++++++++++[<+++++++++++++++>-]>++++++++++[<+++++++++++++++>-]<+>>+++++++++++[<++++++++++++++>-]<-->>+++++++++++[<++++++++++++++>-]<->>+++++++++++[<++++++++++++++>-]>++++++++++++[<+++++++++++++>-]<->>++++++++++++[<+++++++++++++>-]>++++++++++++[<+++++++++++++>-]<+>>++++++++++++[<+++++++++++++>-]<++>>++++++++++[<++++++++++++++++>-]<->>++++++++++[<++++++++++++++++>-]>++++++++++[<++++++++++++++++>-]<+>>+++++++++[<++++++++++++++++++>-]>+++++++++[<++++++++++++++++++>-]<+>>+++++++++++[<+++++++++++++++>-]<->>+++++++++++[<+++++++++++++++>-]>+++++++++++[<+++++++++++++++>-]<+>>++++++++++++[<++++++++++++++>-]<->>++++++++++++[<++++++++++++++>-]>+++++++++++++[<+++++++++++++>-]>+++++++++++++[<+++++++++++++>-]<+>>+++++++++++++[<+++++++++++++>-]<++>>+++++++++++++[<+++++++++++++>-]<+++>>+++++++++++[<++++++++++++++++>-]<--->>+++++++++++[<++++++++++++++++>-]<-->>+++++++++++[<++++++++++++++++>-]<->>+++++++++++[<++++++++++++++++>-]>+++++++++++[<++++++++++++++++>-]<+>>++++++++++++[<+++++++++++++++>-]<-->>++++++++++++[<+++++++++++++++>-]<->>++++++++++++[<+++++++++++++++>-]>+++++++++++++[<++++++++++++++>-]<->>+++++++++++++[<++++++++++++++>-]>+++++++++++++[<++++++++++++++>-]<+>>+++++++++++++[<++++++++++++++>-]<++>>+++++++++++[<+++++++++++++++++>-]<-->>+++++++++++[<+++++++++++++++++>-]<->>+++++++++++[<+++++++++++++++++>-]>+++++++++++[<+++++++++++++++++>-]<+>>++++++++++[<+++++++++++++++++++>-]<->>++++++++++[<+++++++++++++++++++>-]>++++++++++++[<++++++++++++++++>-]<->>++++++++++++[<++++++++++++++++>-]>++++++++++++[<++++++++++++++++>-]<+>>+++++++++++++[<+++++++++++++++>-]<->>+++++++++++++[<+++++++++++++++>-]>++++++++++++++[<++++++++++++++>-]>++++++++++++++[<++++++++++++++>-]<+>>+++++++++++[<++++++++++++++++++>-]>+++++++++++[<++++++++++++++++++>-]<+>>++++++++++[<++++++++++++++++++++>-]>++++++++++[<++++++++++++++++++++>-]<+>>++++++++++++[<+++++++++++++++++>-]<-->>++++++++++++[<+++++++++++++++++>-]<->>++++++++++++[<+++++++++++++++++>-]>++++++++++++[<+++++++++++++++++>-]<+>>+++++++++++++[<++++++++++++++++>-]<-->>+++++++++++++[<++++++++++++++++>-]<->>+++++++++++++[<++++++++++++++++>-]>++++++++++++++[<+++++++++++++++>-]<->>++++++++++++++[<+++++++++++++++>-]>++++++++++++++[<+++++++++++++++>-]<+>>++++++++++++++[<+++++++++++++++>-]<++>>++++++++++++++[<+++++++++++++++>-]<+++>>++++++++++++[<++++++++++++++++++>-]<-->>++++++++++++[<++++++++++++++++++>-]<->>++++++++++++[<++++++++++++++++++>-]>++++++++++++[<++++++++++++++++++>-]<+>>++++++++++++[<++++++++++++++++++>-]<++>>+++++++++++++[<+++++++++++++++++>-]<-->>+++++++++++++[<+++++++++++++++++>-]<->>+++++++++++++[<+++++++++++++++++>-]>+++++++++++++[<+++++++++++++++++>-]<+>>++++++++++++++[<++++++++++++++++>-]<->>++++++++++++++[<++++++++++++++++>-]>+++++++++++++++[<+++++++++++++++>-]>+++++++++++++++[<+++++++++++++++>-]<+>>++++++++++++[<+++++++++++++++++++>-]<->>++++++++++++[<+++++++++++++++++++>-]>++++++++++++[<+++++++++++++++++++>-]<+>>+++++++++++[<+++++++++++++++++++++>-]<->>+++++++++++[<+++++++++++++++++++++>-]>+++++++++++[<+++++++++++++++++++++>-]<+>>+++++++++++++[<++++++++++++++++++>-]<->>+++++++++++++[<++++++++++++++++++>-]>+++++++++++++[<++++++++++++++++++>-]<+>>++++++++++++++[<+++++++++++++++++>-]<-->>++++++++++++++[<+++++++++++++++++>-]<->>++++++++++++++[<+++++++++++++++++>-]>+++++++++++++++[<++++++++++++++++>-]<->>+++++++++++++++[<++++++++++++++++>-]>+++++++++++++++[<++++++++++++++++>-]<+>>+++++++++++++++[<++++++++++++++++>-]<++>>+++++++++++++++[<++++++++++++++++>-]<+++>>+++++++++++++[<+++++++++++++++++++>-]<--->>+++++++++++++[<+++++++++++++++++++>-]<-->>+++++++++++++[<+++++++++++++++++++>-]<->>+++++++++++++[<+++++++++++++++++++>-]>+++++++++++++[<+++++++++++++++++++>-]<+>>+++++++++++++[<+++++++++++++++++++>-]<++>>++++++++++++++[<++++++++++++++++++>-]<-->>++++++++++++++[<++++++++++++++++++>-]<->>++++++++++++++[<++++++++++++++++++>-]>++++++++++++++[<++++++++++++++++++>-]<+>>+++++++++++++++[<+++++++++++++++++>-]<->>+++++++++++++++[<+++++++++++++++++>-]");
}

#[test]
fn test_print_bf_bytes() {
    let text_bytes = text_2_bytes("Brainfuck").unwrap();
    let store_ord = [66, 97, 99, 102, 105, 107, 110, 114, 117];
    let mut data_ptr = 10;
    let bf_code = print_bf_bytes(&text_bytes, &store_ord, data_ptr);

    let mut out_str = String::new();
    for c in bf_code.chars() {
        match c {
            '>' => data_ptr += 1,
            '<' => data_ptr -= 1,
            '.' => out_str.push(store_ord[data_ptr] as char),
            _ => panic!("Unexpected Brainfuck command!"),
        }
    }
    assert_eq!(out_str, "Brainfuck");
}

#[test]
fn test_factor_table() {
    // since the only factors of prime numbers are 1 and the number itself,
    // the factor table should not have difference 0 for prime numbers
    for (n, val) in factor_table().into_iter().enumerate() {
        if let Some((f1, f2, diff)) = val {
            assert_eq!(n as u8, (f1 * f2).checked_add_signed(diff).unwrap(), "The number {} is not represented correctly.", n);

            let (is_p, _) = is_prime(n as u64);
            if is_p {
                assert_ne!(diff, 0, "The prime number {} has difference != 0.", n);
            }
        }
    }
}
