use critical_path::breakpoint::{AstModule, StmtTree};

#[test]
fn test_stmt_locations_single_statement() {
    let module = AstModule { statement: StmtTree::Leaf(0, 3, Vec::new()) };
    assert_eq!(module.stmt_locations(), vec![(0, 3)]);
}

#[test]
fn test_stmt_locations_nested() {
    // A module of two statements, the second holding a nested one, as in a
    // definition with a body.
    let module = AstModule {
        statement: StmtTree::Group(vec![
            StmtTree::Leaf(0, 3, Vec::new()),
            StmtTree::Leaf(4, 20, vec![StmtTree::Leaf(15, 19, Vec::new())]),
        ]),
    };
    assert_eq!(module.stmt_locations(), vec![(0, 3), (4, 20), (15, 19)]);
}

#[test]
fn test_stmt_locations_groups_have_no_location() {
    let module = AstModule {
        statement: StmtTree::Group(vec![StmtTree::Group(vec![StmtTree::Leaf(2, 5, Vec::new())])]),
    };
    assert_eq!(module.stmt_locations(), vec![(2, 5)]);
}

#[test]
fn test_stmt_locations_empty_module() {
    let module = AstModule { statement: StmtTree::Group(Vec::new()) };
    assert_eq!(module.stmt_locations(), Vec::<(u32, u32)>::new());
}
