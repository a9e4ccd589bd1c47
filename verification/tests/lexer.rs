use bf_lib::bf_lexer::{BFLexer, BFToken, BFTokenType};
use bf_lib::traits::{LexError, LexResult, Lexer};

fn parse_ok(src: &str) -> Vec<BFToken> {
    match BFLexer::parse(String::from(src)) {
        LexResult::Success(tokens) => tokens,
        LexResult::Error(e) => panic!("lexing {:?} failed: {:?}", src, e),
    }
}

fn parse_err(src: &str) -> LexError {
    match BFLexer::parse(String::from(src)) {
        LexResult::Success(tokens) => panic!("lexing {:?} succeeded: {:?}", src, tokens),
        LexResult::Error(e) => e,
    }
}

fn types_of(tokens: &[BFToken]) -> Vec<BFTokenType> {
    tokens.iter().map(|t| t.token_type).collect()
}

#[test]
fn folds_runs_of_plus() {
    let tokens = parse_ok("+++");
    assert_eq!(types_of(&tokens), vec![BFTokenType::AddCell(3)]);
}

#[test]
fn no_cross_kind_folding() {
    let tokens = parse_ok(">><<");
    assert_eq!(
        types_of(&tokens),
        vec![BFTokenType::MovePtrForward(2), BFTokenType::MovePtrBackward(2)]
    );
    let tokens = parse_ok("+-");
    assert_eq!(
        types_of(&tokens),
        vec![BFTokenType::AddCell(1), BFTokenType::SubCell(1)]
    );
}

#[test]
fn ignores_unrecognized_characters() {
    let tokens = parse_ok("a+b+ c+\n");
    assert_eq!(types_of(&tokens), vec![BFTokenType::AddCell(3)]);
}

#[test]
fn resolves_bracket_targets_mutually() {
    let tokens = parse_ok("[.]");
    assert_eq!(
        types_of(&tokens),
        vec![
            BFTokenType::LoopOpen(2),
            BFTokenType::Output,
            BFTokenType::LoopClose(0)
        ]
    );
}

#[test]
fn resolves_nested_brackets() {
    let tokens = parse_ok("[.[,].]");
    let types = types_of(&tokens);
    assert_eq!(
        types,
        vec![
            BFTokenType::LoopOpen(6),
            BFTokenType::Output,
            BFTokenType::LoopOpen(4),
            BFTokenType::Input,
            BFTokenType::LoopClose(2),
            BFTokenType::Output,
            BFTokenType::LoopClose(0)
        ]
    );
    // every open points at a close pointing back, and vice versa
    for (i, t) in types.iter().enumerate() {
        match t {
            BFTokenType::LoopOpen(c) => assert_eq!(types[*c], BFTokenType::LoopClose(i)),
            BFTokenType::LoopClose(o) => assert_eq!(types[*o], BFTokenType::LoopOpen(i)),
            _ => {}
        }
    }
}

#[test]
fn token_positions_count_from_one() {
    let tokens = parse_ok("+>[-].,");
    for (i, t) in tokens.iter().enumerate() {
        assert_eq!(t.pos, i + 1);
    }
}

#[test]
fn strips_empty_loop() {
    let tokens = parse_ok("[]");
    assert!(tokens.is_empty());
}

#[test]
fn folds_across_deleted_empty_loop() {
    let tokens = parse_ok("+[]+");
    assert_eq!(types_of(&tokens), vec![BFTokenType::AddCell(2)]);
}

#[test]
fn rewrites_zero_set_loops() {
    assert_eq!(types_of(&parse_ok("[-]")), vec![BFTokenType::SetCell(0)]);
    assert_eq!(types_of(&parse_ok("[+]")), vec![BFTokenType::SetCell(0)]);
    assert_eq!(types_of(&parse_ok("[---]")), vec![BFTokenType::SetCell(0)]);
}

#[test]
fn rewrites_copy_loops() {
    assert_eq!(types_of(&parse_ok("[->+<]")), vec![BFTokenType::AddToOffset(1)]);
    assert_eq!(types_of(&parse_ok("[-<+>]")), vec![BFTokenType::AddToOffset(-1)]);
    assert_eq!(
        types_of(&parse_ok("[->>>>+<<<<]")),
        vec![BFTokenType::AddToOffset(4)]
    );
}

#[test]
fn unequal_copy_loop_is_not_rewritten() {
    // the two pointer moves differ, so the loop keeps its bracket form
    let tokens = parse_ok("[->>+<]");
    assert_eq!(
        types_of(&tokens),
        vec![
            BFTokenType::LoopOpen(5),
            BFTokenType::SubCell(1),
            BFTokenType::MovePtrForward(2),
            BFTokenType::AddCell(1),
            BFTokenType::MovePtrBackward(1),
            BFTokenType::LoopClose(0)
        ]
    );
}

#[test]
fn unmatched_close_bracket_is_reported() {
    assert_eq!(parse_err("]"), LexError::UnmatchedCloseBracket(0));
    assert_eq!(parse_err("+]"), LexError::UnmatchedCloseBracket(1));
    // unrecognized characters do not count toward the position
    assert_eq!(parse_err("ab]"), LexError::UnmatchedCloseBracket(0));
    assert_eq!(parse_err("[]]"), LexError::UnmatchedCloseBracket(2));
    // positions count command characters, not folded instructions
    assert_eq!(parse_err("++]"), LexError::UnmatchedCloseBracket(2));
}

#[test]
fn unmatched_open_bracket_is_reported() {
    assert_eq!(parse_err("["), LexError::UnmatchedOpenBracket(0));
    assert_eq!(parse_err("+["), LexError::UnmatchedOpenBracket(1));
    // the earliest never-matched open bracket is the one reported
    assert_eq!(parse_err("+[[]"), LexError::UnmatchedOpenBracket(1));
    assert_eq!(parse_err("[[]"), LexError::UnmatchedOpenBracket(0));
}

#[test]
fn empty_source_lexes_to_nothing() {
    assert!(parse_ok("").is_empty());
}
