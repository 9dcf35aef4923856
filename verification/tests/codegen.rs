use calculator::{BinOpKind, CodegenError, Compiler, NodeKind, CODE_AREA_SIZE, PAGE_SIZE};

fn number(n: u8) -> NodeKind {
    NodeKind::Number(n)
}

fn node(kind: BinOpKind, lhs: NodeKind, rhs: NodeKind) -> NodeKind {
    NodeKind::BinOp { kind, lhs: Box::new(lhs), rhs: Box::new(rhs) }
}

/// What has been written, read by ending the writing phase on a leaf.
fn written(compiler: Compiler) -> Vec<u8> {
    let mut code = compiler.gen_code(&number(0)).unwrap();
    code.truncate(code.len() - 4);
    code
}

#[test]
fn code_area_is_a_quarter_of_a_page() {
    assert_eq!(CODE_AREA_SIZE, 1024);
    assert_eq!(PAGE_SIZE, 4096);
}

#[test]
fn new_compiler_has_written_nothing() {
    assert_eq!(Compiler::new().gen_code(&number(1)), Ok(vec![0x6a, 0x01, 0x58, 0xc3]));
}

#[test]
fn push_code_appends() {
    let mut compiler = Compiler::new();
    assert_eq!(compiler.push_code(&[1, 2, 3]), Ok(()));
    assert_eq!(compiler.push_code(&[]), Ok(()));
    assert_eq!(compiler.push_code(&[4]), Ok(()));
    assert_eq!(written(compiler), vec![1, 2, 3, 4]);
}

#[test]
fn push_code_fills_the_area_to_the_last_byte() {
    let mut compiler = Compiler::new();
    assert_eq!(compiler.push_code(&[0x90; 1024]), Ok(()));
    assert_eq!(compiler.push_code(&[]), Ok(()));
    assert_eq!(compiler.push_code(&[0x90]), Err(CodegenError::CodeBufferOverflow));
}

#[test]
fn push_code_writes_all_or_nothing() {
    let mut compiler = Compiler::new();
    assert_eq!(compiler.push_code(&[0x90; 1000]), Ok(()));
    assert_eq!(compiler.push_code(&[0xcc; 25]), Err(CodegenError::CodeBufferOverflow));
    // the twenty bytes that are left can still be had
    assert_eq!(compiler.push_code(&[0x90; 20]), Ok(()));
    assert_eq!(compiler.push_code(&[0x90; 4]), Ok(()));
    assert_eq!(compiler.push_code(&[0x90]), Err(CodegenError::CodeBufferOverflow));
}

#[test]
fn push_code_refuses_more_than_the_area_at_once() {
    let mut compiler = Compiler::new();
    assert_eq!(compiler.push_code(&[0x90; 1025]), Err(CodegenError::CodeBufferOverflow));
    assert_eq!(written(compiler), Vec::<u8>::new());
}

#[test]
fn literal_below_128_takes_the_short_push() {
    let mut compiler = Compiler::new();
    assert_eq!(compiler.gen_code_ast(&number(0)), Ok(()));
    assert_eq!(compiler.gen_code_ast(&number(127)), Ok(()));
    assert_eq!(written(compiler), vec![0x6a, 0x00, 0x6a, 0x7f]);
}

#[test]
fn literal_from_128_takes_the_long_push() {
    let mut compiler = Compiler::new();
    assert_eq!(compiler.gen_code_ast(&number(128)), Ok(()));
    assert_eq!(compiler.gen_code_ast(&number(255)), Ok(()));
    assert_eq!(
        written(compiler),
        vec![0x68, 0x80, 0x00, 0x00, 0x00, 0x68, 0xff, 0x00, 0x00, 0x00]
    );
}

#[test]
fn operator_code_comes_after_both_operands() {
    let mut compiler = Compiler::new();
    assert_eq!(compiler.gen_code_ast(&node(BinOpKind::Div, number(9), number(3))), Ok(()));
    assert_eq!(
        written(compiler),
        vec![
            0x6a, 0x03, // push 3
            0x6a, 0x09, // push 9
            0x58, // pop rax
            0x5f, // pop rdi
            0x48, 0x99, // cqo
            0x48, 0xf7, 0xff, // idiv rdi
            0x50, // push rax
        ]
    );
}

#[test]
fn code_is_written_for_any_tree() {
    // (2 + 3) * 4
    let tree = node(BinOpKind::Mul, node(BinOpKind::Add, number(2), number(3)), number(4));
    assert_eq!(
        Compiler::new().gen_code(&tree),
        Ok(vec![
            0x6a, 0x04, // 4
            0x6a, 0x03, 0x6a, 0x02, 0x58, 0x5f, 0x48, 0x01, 0xf8, 0x50, // 2 + 3
            0x58, 0x5f, 0x48, 0x0f, 0xaf, 0xc7, 0x50, // *
            0x58, 0xc3,
        ])
    );
}

#[test]
fn gen_code_keeps_what_was_written_before() {
    let mut compiler = Compiler::new();
    assert_eq!(compiler.push_code(&[0x90]), Ok(()));
    assert_eq!(compiler.gen_code(&number(5)), Ok(vec![0x90, 0x6a, 0x05, 0x58, 0xc3]));
}

#[test]
fn gen_code_ast_stops_where_the_area_ends() {
    let mut compiler = Compiler::new();
    assert_eq!(compiler.push_code(&[0x90; 1019]), Ok(()));
    // five bytes are left: both literals fit, `pop rax` fits, `pop rdi` no more
    let tree = node(BinOpKind::Add, number(1), number(2));
    assert_eq!(compiler.gen_code_ast(&tree), Err(CodegenError::CodeBufferOverflow));
    assert_eq!(compiler.push_code(&[0x90]), Err(CodegenError::CodeBufferOverflow));
}

#[test]
fn gen_code_ast_skips_no_instruction_that_fits_later() {
    let mut compiler = Compiler::new();
    assert_eq!(compiler.push_code(&[0x90; 1021]), Ok(()));
    // three bytes are left: the long push of the right operand does not fit,
    // and the short push of the left one is not written in its place
    let tree = node(BinOpKind::Add, number(1), number(200));
    assert_eq!(compiler.gen_code_ast(&tree), Err(CodegenError::CodeBufferOverflow));
    assert_eq!(compiler.push_code(&[0x90; 3]), Ok(()));
}

#[test]
fn gen_code_needs_room_for_the_return() {
    let mut compiler = Compiler::new();
    assert_eq!(compiler.push_code(&[0x90; 1020]), Ok(()));
    assert_eq!(compiler.gen_code(&number(1)), Ok({
        let mut code = vec![0x90; 1020];
        code.extend_from_slice(&[0x6a, 0x01, 0x58, 0xc3]);
        code
    }));
    let mut compiler = Compiler::new();
    assert_eq!(compiler.push_code(&[0x90; 1021]), Ok(()));
    assert_eq!(compiler.gen_code(&number(1)), Err(CodegenError::CodeBufferOverflow));
}
