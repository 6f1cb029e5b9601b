use code_steps::macro_args::{parse_step_args, parse_tagged_block, wait_call, ArgToken};

fn s(v: &str) -> ArgToken {
    ArgToken::Str(v.to_string())
}

#[test]
fn step_args_description_and_block() {
    let a = parse_step_args(&vec![s("Load"), ArgToken::Comma, ArgToken::Block]).unwrap();
    assert_eq!(a.comment, "Load");
    assert!(a.tags.is_empty());
    let a = parse_step_args(&vec![s("Load"), ArgToken::Block]).unwrap();
    assert_eq!(a.comment, "Load");
}

#[test]
fn step_args_with_tags() {
    let toks = vec![s("Load"), ArgToken::Comma, s("a"), ArgToken::Comma, s("b"), ArgToken::Comma, ArgToken::Block];
    let a = parse_step_args(&toks).unwrap();
    assert_eq!(a.tags, vec!["a".to_string(), "b".to_string()]);
    let toks = vec![s("Load"), ArgToken::Comma, s("a"), ArgToken::Block];
    assert_eq!(parse_step_args(&toks).unwrap().tags, vec!["a".to_string()]);
}

#[test]
fn step_args_rejected() {
    assert!(parse_step_args(&vec![]).is_none());
    assert!(parse_step_args(&vec![ArgToken::Block]).is_none());
    assert!(parse_step_args(&vec![s("Load"), ArgToken::Comma]).is_none());
    assert!(parse_step_args(&vec![s("Load"), ArgToken::Comma, s("a"), s("b"), ArgToken::Block]).is_none());
    assert!(parse_step_args(&vec![s("Load"), ArgToken::Block, ArgToken::Comma]).is_none());
    assert!(parse_step_args(&vec![s("Load"), ArgToken::Comma, ArgToken::Other, ArgToken::Block]).is_none());
}

#[test]
fn wait_forms() {
    let a = wait_call(&vec![]).unwrap();
    assert!(a.is_empty());
    let a = wait_call(&vec![s("check")]).unwrap();
    assert_eq!(a, vec!["check".to_string()]);
    let a = wait_call(&vec![s("check"), ArgToken::Comma]).unwrap();
    assert_eq!(a, vec!["check".to_string()]);
    let a = wait_call(&vec![s("t1"), ArgToken::Comma, s("t2")]).unwrap();
    assert_eq!(a, vec!["t1".to_string(), "t2".to_string()]);
    assert!(wait_call(&vec![ArgToken::Comma]).is_none());
    assert!(wait_call(&vec![s("a"), s("b")]).is_none());
}

#[test]
fn tagged_block_forms() {
    let outer = vec![ArgToken::Paren, ArgToken::Block];
    let tags = parse_tagged_block(&outer, &vec![s("a"), ArgToken::Comma, s("b")]).unwrap();
    assert_eq!(tags, vec!["a".to_string(), "b".to_string()]);
    assert_eq!(parse_tagged_block(&outer, &vec![]).unwrap(), Vec::<String>::new());
    assert!(parse_tagged_block(&vec![ArgToken::Block], &vec![]).is_none());
    assert!(parse_tagged_block(&outer, &vec![ArgToken::Other]).is_none());
}
