use optimizing_bf::error::BFError;
use optimizing_bf::syntax::BFSyntax;
use optimizing_bf::tokens::{tokenize, BFToken};

#[test]
fn test_simple_program() {
    assert_eq!(
        BFSyntax::try_from(tokenize("++-->><<")).unwrap(),
        BFSyntax::Root(vec![
            BFSyntax::Inc(1),
            BFSyntax::Inc(1),
            BFSyntax::Dec(1),
            BFSyntax::Dec(1),
            BFSyntax::Right(1),
            BFSyntax::Right(1),
            BFSyntax::Left(1),
            BFSyntax::Left(1),
        ])
    )
}

#[test]
fn test_single_loop() {
    assert_eq!(
        BFSyntax::try_from(tokenize("++[-]")).unwrap(),
        BFSyntax::Root(vec![
            BFSyntax::Inc(1),
            BFSyntax::Inc(1),
            BFSyntax::Loop(vec![BFSyntax::Dec(1)])
        ])
    )
}

#[test]
fn test_nested_loop() {
    assert_eq!(
        BFSyntax::try_from(tokenize("++[-[>]]")).unwrap(),
        BFSyntax::Root(vec![
            BFSyntax::Inc(1),
            BFSyntax::Inc(1),
            BFSyntax::Loop(vec![
                BFSyntax::Dec(1),
                BFSyntax::Loop(vec![BFSyntax::Right(1)])
            ])
        ])
    )
}

#[test]
fn test_loop_with_follower() {
    assert_eq!(
        BFSyntax::try_from(tokenize("++[-]+")).unwrap(),
        BFSyntax::Root(vec![
            BFSyntax::Inc(1),
            BFSyntax::Inc(1),
            BFSyntax::Loop(vec![BFSyntax::Dec(1),]),
            BFSyntax::Inc(1),
        ])
    )
}

#[test]
fn unmatched_open_bracket_is_syntax_error() {
    assert_eq!(BFSyntax::build(&tokenize("+[[-]")), Err(BFError::SyntaxError));
}

#[test]
fn unmatched_close_bracket_is_syntax_error() {
    assert_eq!(BFSyntax::build(&tokenize("+]+")), Err(BFError::SyntaxError));
    assert_eq!(BFSyntax::build(&tokenize("[]][")), Err(BFError::SyntaxError));
}

#[test]
fn test_tokenize() {
    let input = "+-+<<>[abc,+.][";
    let expected = vec![
        BFToken::Inc,
        BFToken::Dec,
        BFToken::Inc,
        BFToken::Left,
        BFToken::Left,
        BFToken::Right,
        BFToken::BeginLoop,
        BFToken::Read,
        BFToken::Inc,
        BFToken::Write,
        BFToken::EndLoop,
        BFToken::BeginLoop,
    ];

    assert_eq!(tokenize(input), expected);
}

#[test]
fn tokenize_drops_non_ascii_characters() {
    assert_eq!(
        tokenize("é+ü]→."),
        vec![BFToken::Inc, BFToken::EndLoop, BFToken::Write]
    );
}
