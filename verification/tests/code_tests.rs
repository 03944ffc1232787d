//! Tests of the front end: lexing, merging, bracket validation,
//! pattern recognition and jump resolution.

use bfuck::STORAGE_SIZE;
use bfuck::code::{
    process_code, merge_adjacent, check_loops, calculate_jumps, clear_cell, add_to, add_to_copy,
    Token,
};
use bfuck::error::Error;

#[test]
fn test_process_code() {
    let code = "++[>++<,.-]";
    let tokens = process_code(code).unwrap();
    assert_eq!(
        tokens,
        vec![
            Token::Add(2),
            Token::OpenBr(7),
            Token::Move(1),
            Token::Add(2),
            Token::Move(STORAGE_SIZE - 1),
            Token::Input,
            Token::Output,
            Token::Add(u8::MAX),
            Token::CloseBr(7),
        ]
    );
}

#[test]
fn test_merge_adjacent() {
    let tokens = vec![
        (Token::Add(1), 1, 1),
        (Token::Add(1), 1, 2),
        (Token::Move(1), 1, 3),
        (Token::Move(1), 1, 4),
        (Token::Add(1), 1, 5),
        (Token::Add(255), 1, 6),
        (Token::Move(1), 1, 7),
        (Token::Move(STORAGE_SIZE - 1), 1, 8),
    ];
    let optimized_tokens = merge_adjacent(tokens);

    assert_eq!(optimized_tokens, vec![(Token::Add(2), 1, 1), (Token::Move(2), 1, 3),]);
}

#[test]
fn test_check_loops() {
    let tokens = vec![
        (Token::OpenBr(1), 1, 1),
        (Token::CloseBr(1), 1, 2),
        (Token::OpenBr(3), 1, 3),
        (Token::OpenBr(1), 1, 4),
        (Token::CloseBr(1), 1, 5),
        (Token::CloseBr(3), 1, 6),
    ];
    assert_eq!(check_loops(&tokens), Ok(()));

    let tokens = vec![
        (Token::OpenBr(1), 1, 1),
        (Token::CloseBr(1), 1, 2),
        (Token::CloseBr(0), 1, 3),
    ];
    assert_eq!(check_loops(&tokens), Err(Error::UnmatchedCloseBr(1, 3)));

    let tokens = vec![
        (Token::OpenBr(0), 1, 1),
        (Token::OpenBr(1), 1, 2),
        (Token::CloseBr(1), 1, 3),
    ];
    assert_eq!(check_loops(&tokens), Err(Error::UnmatchedOpenBr(1, 1)));
}

#[test]
fn test_calculate_jumps() {
    let mut tokens = vec![
        (Token::OpenBr(0), 1, 1),
        (Token::OpenBr(0), 1, 2),
        (Token::OpenBr(0), 1, 3),
        (Token::CloseBr(0), 1, 4),
        (Token::CloseBr(0), 1, 5),
        (Token::CloseBr(0), 1, 6),
    ];

    calculate_jumps(&mut tokens);

    assert_eq!(
        tokens,
        vec![
            (Token::OpenBr(5), 1, 1),
            (Token::OpenBr(3), 1, 2),
            (Token::OpenBr(1), 1, 3),
            (Token::CloseBr(1), 1, 4),
            (Token::CloseBr(3), 1, 5),
            (Token::CloseBr(5), 1, 6),
        ]
    );
}

#[test]
fn test_clear_cell() {
    // a subtracting loop
    let mut tokens = vec![
        (Token::OpenBr(2), 1, 1),
        (Token::Add(u8::MAX), 1, 2),
        (Token::CloseBr(2), 1, 3),
    ];
    clear_cell(&mut tokens);
    assert_eq!(tokens, vec![(Token::ClearCell, 1, 1),]);

    // an adding loop
    let mut tokens = vec![
        (Token::OpenBr(2), 1, 1),
        (Token::Add(1), 1, 2),
        (Token::CloseBr(2), 1, 3),
    ];
    clear_cell(&mut tokens);
    assert_eq!(tokens, vec![(Token::ClearCell, 1, 1),]);

    // a larger addition inside the loop
    let mut tokens = vec![
        (Token::OpenBr(2), 1, 1),
        (Token::Add(133), 1, 2),
        (Token::CloseBr(2), 1, 3),
    ];
    clear_cell(&mut tokens);
    assert_eq!(tokens, vec![(Token::ClearCell, 1, 1),]);

    // nested loops around the pattern
    let mut tokens = vec![
        (Token::OpenBr(4), 1, 1),
        (Token::OpenBr(2), 1, 2),
        (Token::Add(2), 1, 3),
        (Token::CloseBr(2), 1, 4),
        (Token::CloseBr(4), 1, 5),
    ];
    clear_cell(&mut tokens);
    assert_eq!(tokens, vec![(Token::ClearCell, 1, 1),]);

    // two occurrences, one wrapped in an extra loop
    let mut tokens = vec![
        (Token::Move(1), 1, 1),
        (Token::OpenBr(2), 1, 2),
        (Token::Add(u8::MAX), 1, 3),
        (Token::CloseBr(2), 1, 4),
        (Token::Move(STORAGE_SIZE - 1), 1, 5),
        (Token::OpenBr(4), 1, 6),
        (Token::OpenBr(2), 1, 7),
        (Token::Add(u8::MAX), 1, 8),
        (Token::CloseBr(2), 1, 9),
        (Token::CloseBr(4), 1, 10),
    ];
    clear_cell(&mut tokens);
    assert_eq!(
        tokens,
        vec![
            (Token::Move(1), 1, 1),
            (Token::ClearCell, 1, 2),
            (Token::Move(STORAGE_SIZE - 1), 1, 5),
            (Token::ClearCell, 1, 6),
        ]
    );

    // nested loops followed by another token
    let mut tokens = vec![
        (Token::OpenBr(6), 1, 1),
        (Token::OpenBr(4), 1, 2),
        (Token::OpenBr(2), 1, 3),
        (Token::Add(1), 1, 4),
        (Token::CloseBr(2), 1, 5),
        (Token::CloseBr(4), 1, 6),
        (Token::CloseBr(6), 1, 7),
        (Token::Add(u8::MAX), 1, 8),
    ];
    clear_cell(&mut tokens);
    assert_eq!(tokens, vec![(Token::ClearCell, 1, 1), (Token::Add(u8::MAX), 1, 8),]);
}

#[test]
fn test_add_to() {
    // move forward and return
    let mut tokens = vec![
        (Token::OpenBr(5), 1, 1),
        (Token::Add(u8::MAX), 1, 2),
        (Token::Move(2), 1, 3),
        (Token::Add(1), 1, 4),
        (Token::Move(STORAGE_SIZE - 2), 1, 5),
        (Token::CloseBr(5), 1, 6),
    ];
    add_to(&mut tokens);
    assert_eq!(tokens, vec![(Token::AddTo(2), 1, 1),]);

    // move backward and return
    let mut tokens = vec![
        (Token::OpenBr(5), 1, 1),
        (Token::Add(u8::MAX), 1, 2),
        (Token::Move(STORAGE_SIZE - 3), 1, 3),
        (Token::Add(1), 1, 4),
        (Token::Move(3), 1, 5),
        (Token::CloseBr(5), 1, 6),
    ];
    add_to(&mut tokens);
    assert_eq!(tokens, vec![(Token::AddTo(STORAGE_SIZE - 3), 1, 1),]);

    // nested loops around the pattern
    let mut tokens = vec![
        (Token::OpenBr(9), 1, 1),
        (Token::OpenBr(7), 1, 2),
        (Token::OpenBr(5), 1, 3),
        (Token::Add(u8::MAX), 1, 4),
        (Token::Move(2), 1, 5),
        (Token::Add(1), 1, 6),
        (Token::Move(STORAGE_SIZE - 2), 1, 7),
        (Token::CloseBr(5), 1, 8),
        (Token::CloseBr(7), 1, 9),
        (Token::CloseBr(9), 1, 10),
    ];
    add_to(&mut tokens);
    assert_eq!(tokens, vec![(Token::AddTo(2), 1, 1),]);

    // surrounded by other tokens
    let mut tokens = vec![
        (Token::Move(1), 1, 1),
        (Token::OpenBr(5), 1, 2),
        (Token::Add(u8::MAX), 1, 3),
        (Token::Move(2), 1, 4),
        (Token::Add(1), 1, 5),
        (Token::Move(STORAGE_SIZE - 2), 1, 6),
        (Token::CloseBr(5), 1, 7),
        (Token::Move(STORAGE_SIZE - 1), 1, 8),
    ];
    add_to(&mut tokens);
    assert_eq!(
        tokens,
        vec![
            (Token::Move(1), 1, 1),
            (Token::AddTo(2), 1, 2),
            (Token::Move(STORAGE_SIZE - 1), 1, 8),
        ]
    );
}

#[test]
fn test_add_to_copy() {
    // two forward destinations
    let mut tokens = vec![
        (Token::OpenBr(7), 1, 1),
        (Token::Add(u8::MAX), 1, 2),
        (Token::Move(2), 1, 3),
        (Token::Add(1), 1, 4),
        (Token::Move(1), 1, 5),
        (Token::Add(1), 1, 6),
        (Token::Move(STORAGE_SIZE - 3), 1, 7),
        (Token::CloseBr(7), 1, 8),
    ];
    add_to_copy(&mut tokens);
    assert_eq!(tokens, vec![(Token::AddToCopy(2, 3), 1, 1),]);

    // one backward and one forward destination
    let mut tokens = vec![
        (Token::OpenBr(7), 1, 1),
        (Token::Add(u8::MAX), 1, 2),
        (Token::Move(STORAGE_SIZE - 3), 1, 3),
        (Token::Add(1), 1, 4),
        (Token::Move(4), 1, 5),
        (Token::Add(1), 1, 6),
        (Token::Move(STORAGE_SIZE - 1), 1, 7),
        (Token::CloseBr(7), 1, 8),
    ];
    add_to_copy(&mut tokens);
    assert_eq!(tokens, vec![(Token::AddToCopy(STORAGE_SIZE - 3, 1), 1, 1),]);

    // nested loops around the pattern
    let mut tokens = vec![
        (Token::OpenBr(11), 1, 1),
        (Token::OpenBr(9), 1, 2),
        (Token::OpenBr(7), 1, 3),
        (Token::Add(u8::MAX), 1, 4),
        (Token::Move(2), 1, 5),
        (Token::Add(1), 1, 6),
        (Token::Move(2), 1, 7),
        (Token::Add(1), 1, 8),
        (Token::Move(STORAGE_SIZE - 4), 1, 9),
        (Token::CloseBr(7), 1, 10),
        (Token::CloseBr(9), 1, 11),
        (Token::CloseBr(11), 1, 12),
    ];
    add_to_copy(&mut tokens);
    assert_eq!(tokens, vec![(Token::AddToCopy(2, 4), 1, 1),]);

    // surrounded by other tokens
    let mut tokens = vec![
        (Token::Move(1), 1, 1),
        (Token::OpenBr(7), 1, 2),
        (Token::Add(u8::MAX), 1, 3),
        (Token::Move(5), 1, 4),
        (Token::Add(1), 1, 5),
        (Token::Move(5), 1, 6),
        (Token::Add(1), 1, 7),
        (Token::Move(STORAGE_SIZE - 10), 1, 8),
        (Token::CloseBr(7), 1, 9),
        (Token::Move(STORAGE_SIZE - 1), 1, 10),
    ];
    add_to_copy(&mut tokens);
    assert_eq!(
        tokens,
        vec![
            (Token::Move(1), 1, 1),
            (Token::AddToCopy(5, 10), 1, 2),
            (Token::Move(STORAGE_SIZE - 1), 1, 10),
        ]
    );
}

#[test]
fn merge_adjacent_is_idempotent_on_example() {
    let tokens = vec![
        (Token::Add(3), 1, 1),
        (Token::Move(2), 1, 2),
        (Token::Move(5), 1, 3),
        (Token::Input, 1, 4),
        (Token::Add(1), 1, 5),
        (Token::Add(255), 1, 6),
        (Token::Output, 1, 7),
    ];
    let once = merge_adjacent(tokens.clone());
    let twice = merge_adjacent(once.clone());
    assert_eq!(once, twice);
    assert_eq!(
        once,
        vec![
            (Token::Add(3), 1, 1),
            (Token::Move(7), 1, 2),
            (Token::Input, 1, 4),
            (Token::Output, 1, 7),
        ]
    );
}

#[test]
fn finalized_stream_has_symmetric_brackets() {
    let tokens = process_code("[.[.].][.]").unwrap();
    for (i, t) in tokens.iter().enumerate() {
        match *t {
            Token::OpenBr(d) => {
                assert!(d >= 1);
                assert_eq!(tokens[i + d], Token::CloseBr(d));
            }
            Token::CloseBr(d) => {
                assert!(d >= 1 && d <= i);
                assert_eq!(tokens[i - d], Token::OpenBr(d));
            }
            _ => {}
        }
    }
}

#[test]
fn finalized_stream_has_no_noops() {
    let tokens = process_code("+-<>.,").unwrap();
    assert_eq!(tokens, vec![Token::Output, Token::Input]);
    for t in process_code("a+b-c[d.e]f").unwrap() {
        assert_ne!(t, Token::Add(0));
        assert_ne!(t, Token::Move(0));
    }
}

#[test]
fn unmatched_open_bracket_is_reported() {
    assert_eq!(process_code("[[]"), Err(Error::UnmatchedOpenBr(1, 1)));
    assert_eq!(process_code("."), Ok(vec![Token::Output]));
}

#[test]
fn close_bracket_alone_is_reported() {
    assert_eq!(process_code("]"), Err(Error::UnmatchedCloseBr(1, 1)));
}

#[test]
fn clear_cell_is_recognized() {
    assert_eq!(process_code("[-]").unwrap(), vec![Token::ClearCell]);
}

#[test]
fn nested_clear_cell_is_recognized() {
    assert_eq!(process_code("[[[++]]]").unwrap(), vec![Token::ClearCell]);
}

#[test]
fn any_depth_of_pure_nesting_collapses() {
    // instances of the general law: brackets wrapped directly around
    // the subtracting loop collapse to a single clear, at any depth
    for k in 0..6 {
        let code = format!("{}[-]{}", "[".repeat(k), "]".repeat(k));
        assert_eq!(process_code(&code).unwrap(), vec![Token::ClearCell]);
    }
}

#[test]
fn zero_addition_loop_is_not_a_clear() {
    // a loop whose body merges to no addition at all keeps its brackets
    assert_eq!(
        process_code("[+-]").unwrap(),
        vec![Token::OpenBr(1), Token::CloseBr(1)]
    );
}

#[test]
fn add_to_is_recognized() {
    assert_eq!(process_code("[->>+<<]").unwrap(), vec![Token::AddTo(2)]);
}

#[test]
fn add_to_copy_is_recognized() {
    assert_eq!(process_code("[->>+>+<<<]").unwrap(), vec![Token::AddToCopy(2, 3)]);
}

#[test]
fn nested_loop_program_finalizes_as_documented() {
    let code = "<<--[-[>++<,.-]]";
    let tokens = process_code(code).unwrap();

    assert_eq!(
        tokens,
        vec![
            Token::Move(STORAGE_SIZE - 2),
            Token::Add(u8::MAX - 1),
            Token::OpenBr(10),
            Token::Add(u8::MAX),
            Token::OpenBr(7),
            Token::Move(1),
            Token::Add(2),
            Token::Move(STORAGE_SIZE - 1),
            Token::Input,
            Token::Output,
            Token::Add(u8::MAX),
            Token::CloseBr(7),
            Token::CloseBr(10),
        ]
    );
}
