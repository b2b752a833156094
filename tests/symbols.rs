use solasm::ast::{Block, DecNumber, Expression, Identifier, Literal, Node, NodeIds, Statement, VariableDeclaration};
use solasm::parse;
use solasm::scopes::{resolve, ScopeVisitor};
use solasm::symbols::{SymbolTable, SymbolTableError, Variable};

fn number_expression(ids: &mut NodeIds, digits: &str) -> Expression {
    let n = DecNumber::new(ids, digits).unwrap();
    let lit = Node::new(ids, Literal::DecNumber(n));
    Expression::Literal(lit)
}

fn literal_id(v: &Variable) -> u64 {
    match &v.expression {
        Expression::Literal(l) => l.id,
        _ => panic!("not a literal"),
    }
}

#[test]
fn it_allows_variable_declaration_in_scope() {
    let mut ids = NodeIds::new();
    let identifier = Identifier::new(&mut ids, "foo").unwrap();
    let expression = number_expression(&mut ids, "0");

    let mut t = SymbolTable::new();
    {
        let scope_err = t.declare(10, &identifier, &expression);
        assert!(matches!(scope_err, Err(SymbolTableError::Scope(10))));
    }

    {
        let first = t.declare(0, &identifier, &expression);
        assert!(first.is_ok());
    }

    {
        let second = t.declare(0, &identifier, &expression);
        match second {
            Err(SymbolTableError::Redeclare(i)) => assert_eq!(i.symbol, identifier.symbol),
            _ => panic!("expected a redeclaration error"),
        }
    }
}

#[test]
fn it_keeps_the_first_declaration_on_redeclare() {
    let mut ids = NodeIds::new();
    let identifier = Identifier::new(&mut ids, "foo").unwrap();
    let first_expression = number_expression(&mut ids, "0");
    let second_expression = number_expression(&mut ids, "1");
    let first_id = match &first_expression {
        Expression::Literal(l) => l.id,
        _ => unreachable!(),
    };

    let mut t = SymbolTable::new();
    assert!(t.declare(0, &identifier, &first_expression).is_ok());
    assert!(t.declare(0, &identifier, &second_expression).is_err());
    assert_eq!(literal_id(t.get(0, &identifier).unwrap()), first_id);
}

#[test]
fn it_allows_variable_lookup_from_nonstrictly_ancestral_scopes() {
    let mut t = SymbolTable::new();
    let declaration_sid = t.subscope(0).unwrap();
    let child_sid = t.subscope(declaration_sid).unwrap();

    let mut ids = NodeIds::new();
    let identifier = Identifier::new(&mut ids, "foo").unwrap();
    let expression = number_expression(&mut ids, "0");

    assert!(t.get(0, &identifier).is_err());

    t.declare(declaration_sid, &identifier, &expression).ok();

    let from_declaration_scope = t.get(declaration_sid, &identifier);
    assert!(from_declaration_scope.is_ok());

    let from_child_scope = t.get(child_sid, &identifier);
    assert!(from_child_scope.is_ok());

    assert_eq!(literal_id(from_declaration_scope.unwrap()), literal_id(from_child_scope.unwrap()));
}

#[test]
fn it_fails_lookup_of_undeclared_identifiers() {
    let mut t = SymbolTable::new();
    let a = t.subscope(0).unwrap();
    let mut ids = NodeIds::new();
    let identifier = Identifier::new(&mut ids, "bar").unwrap();
    match t.get(a, &identifier) {
        Err(SymbolTableError::Unknown(i, s)) => {
            assert_eq!(i.symbol, "bar");
            assert_eq!(s, a);
        },
        _ => panic!("expected an unknown identifier error"),
    }
    assert!(matches!(t.get(7, &identifier), Err(SymbolTableError::Scope(7))));
    assert!(matches!(t.subscope(9), Err(SymbolTableError::Scope(9))));
}

#[test]
fn it_retrieves_correct_variable_upon_overriding() {
    let mut t = SymbolTable::new();
    let declaration_sid = t.subscope(0).unwrap();
    let child_sid = t.subscope(declaration_sid).unwrap();

    let mut ids = NodeIds::new();
    let identifier = Identifier::new(&mut ids, "foo").unwrap();
    let first_expression = number_expression(&mut ids, "0");
    let second_expression = number_expression(&mut ids, "1");

    assert!(t.get(0, &identifier).is_err());

    t.declare(declaration_sid, &identifier, &first_expression).ok();
    t.declare(child_sid, &identifier, &second_expression).ok();

    let from_declaration_scope = t.get(declaration_sid, &identifier);
    let from_child_scope = t.get(child_sid, &identifier);
    assert_ne!(literal_id(from_declaration_scope.unwrap()), literal_id(from_child_scope.unwrap()));
}

#[test]
fn it_gives_root_node_its_own_scope_with_global_scope_parent() {
    let mut ids = NodeIds::new();
    let node = Block::new(&mut ids, vec![]);
    let mut visitor = ScopeVisitor::new(&node);

    assert_eq!(visitor.scope_of(node.id), None);

    visitor.visit();

    let global_sid = 0;
    let expected_sid = 1;

    assert_eq!(visitor.scope_of(node.id), Some(expected_sid));
    assert_eq!(visitor.symbols.parent(expected_sid), Some(global_sid));
}

#[test]
fn it_creates_a_scope_for_each_block() {
    let mut ids = NodeIds::new();
    let inner = Block::new(&mut ids, vec![]);
    let statement = Node::new(&mut ids, Statement::Block(inner));
    let node = Block::new(&mut ids, vec![statement]);
    let mut visitor = ScopeVisitor::new(&node);

    // just the global scope
    assert_eq!(visitor.symbols.len(), 1);

    visitor.visit();

    // global scope, root block node, first statement block
    assert_eq!(visitor.symbols.len(), 3);
}

#[test]
fn it_stores_nodes_by_scope() {
    let mut ids = NodeIds::new();
    let identifier = Identifier::new(&mut ids, "i");
    let identifier_nid = identifier.id;

    let zero = DecNumber::new(&mut ids, "0").unwrap();
    let zero_nid = zero.id;
    let literal = Node::new(&mut ids, Literal::DecNumber(zero));
    let literal_nid = literal.id;

    let expression = Node::new(&mut ids, Expression::Literal(literal));
    let expression_nid = expression.id;

    let declaration = VariableDeclaration::new(&mut ids, vec![identifier], expression);
    let declaration_nid = declaration.id;

    let statement = Node::new(&mut ids, Statement::VariableDeclaration(declaration));
    let statement_nid = statement.id;

    let block = Block::new(&mut ids, vec![statement]);
    let block_nid = block.id;

    let outer_statement = Node::new(&mut ids, Statement::Block(block));
    let outer_statement_nid = outer_statement.id;

    let root = Block::new(&mut ids, vec![outer_statement]);
    let root_nid = root.id;

    let mut visitor = ScopeVisitor::new(&root);

    visitor.visit();

    let root_sid = 1;
    let block_sid = 2;

    assert_eq!(visitor.scope_of(root_nid), Some(root_sid));
    assert_eq!(visitor.scope_of(outer_statement_nid), Some(root_sid));
    assert_eq!(visitor.scope_of(block_nid), Some(block_sid));
    assert_eq!(visitor.scope_of(statement_nid), Some(block_sid));
    assert_eq!(visitor.scope_of(declaration_nid), Some(block_sid));
    assert_eq!(visitor.scope_of(expression_nid), Some(block_sid));
    assert_eq!(visitor.scope_of(literal_nid), Some(block_sid));
    assert_eq!(visitor.scope_of(zero_nid), Some(block_sid));
    assert_eq!(visitor.scope_of(identifier_nid), Some(block_sid));
}

#[test]
fn it_gives_nested_blocks_distinct_scopes() {
    let root = parse("{ i { j } k }").unwrap();
    let (table, sids) = resolve(&root);
    assert_eq!(table.len(), 3);
    assert_eq!(sids.get(&root.id), Some(&1));
    let inner_id = match &root.node.statements[1].node {
        Statement::Block(b) => b.id,
        _ => panic!("not a block"),
    };
    let inner_sid = *sids.get(&inner_id).unwrap();
    assert_ne!(inner_sid, 1);
    assert_eq!(table.parent(inner_sid), Some(1));
    let k_statement = root.node.statements[2].id;
    assert_eq!(sids.get(&k_statement), Some(&1));
}

#[test]
fn it_records_a_scope_for_every_node() {
    let root = parse("{ function f(a) -> (b) { b := add(a, 1) } for { let i := 0 } lt(i, 2) { } { f(i) } }").unwrap();
    let visits = solasm::walk::walk(&root);
    let (_, sids) = resolve(&root);
    let entered: Vec<u64> = visits.iter().filter(|v| v.enter).map(|v| v.id).collect();
    for id in &entered {
        assert!(sids.contains_key(id));
    }
    assert_eq!(sids.len(), entered.len());
}

#[test]
fn it_gives_parsed_nodes_distinct_ids_from_the_counter() {
    let mut ids = NodeIds::new();
    ids.next = 100;
    let root = solasm::parse_with("{ let x := add(1, 2) { x } }", &mut ids).unwrap();
    let visits = solasm::walk::walk(&root);
    let mut entered: Vec<u64> = visits.iter().filter(|v| v.enter).map(|v| v.id).collect();
    let n = entered.len();
    assert!(entered.iter().all(|&id| 100 <= id && id < ids.next));
    entered.sort();
    entered.dedup();
    assert_eq!(entered.len(), n);
}
