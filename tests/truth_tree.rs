use tableau::ast::{SimpleStatementLetter, Statement, Subscript};
use tableau::branch::{Branch, BranchNode, StatementId};
use tableau::truth_tree::{TreeId, TruthTree};

fn node(letter: char) -> BranchNode {
    BranchNode {
        statement: Statement::Simple(SimpleStatementLetter(letter, Subscript(None))),
        derived_from: None,
    }
}

fn statement(letter: char) -> Statement {
    node(letter).statement
}

/// Root with `[A]`, a child with `[B]` under it, a grandchild with `[C]`
/// under the child.
fn three_levels() -> (TruthTree, TreeId, TreeId, TreeId) {
    let mut tree = TruthTree::new(Branch::new(vec![node('A')]));
    let root = tree.main_trunk_id();
    let child = tree.append_branch_at(Branch::new(vec![node('B')]), &root);
    let grandchild = tree.append_branch_at(Branch::new(vec![node('C')]), &child);
    (tree, root, child, grandchild)
}

#[test]
fn truth_tree_main_trunk_id() {
    let truth_tree = TruthTree::new(Branch::new(vec![node('A')]));

    let root_id = truth_tree.main_trunk_id();

    assert_eq!(root_id, truth_tree.traverse_downwards_branches_ids(&root_id)[0]);
    assert_eq!(root_id, truth_tree.main_trunk_id());
}

#[test]
fn truth_tree_traverse_upwards_branch_ids() {
    let mut truth_tree = TruthTree::new(Branch::new(vec![node('A')]));

    let root_id = truth_tree.main_trunk_id();

    let child_branch_1_id = truth_tree.append_branch_at(Branch::new(vec![node('B')]), &root_id);

    let mut iter = truth_tree.traverse_upwards_branch_ids(&child_branch_1_id).into_iter();

    assert_eq!(iter.next(), Some(child_branch_1_id.clone()));
    assert_eq!(iter.next(), Some(truth_tree.main_trunk_id()));
    assert_eq!(iter.next(), None);
}

#[test]
fn truth_tree_traverse_upwards_branches() {
    let mut truth_tree = TruthTree::new(Branch::new(vec![node('A')]));

    let root_id = truth_tree.main_trunk_id();

    let child_branch_1_id = truth_tree.append_branch_at(Branch::new(vec![node('B')]), &root_id);

    let mut iter = truth_tree.traverse_upwards_branches(&child_branch_1_id).into_iter();

    let (_, first_branch) = iter.next().unwrap();

    assert_eq!(
        first_branch.statement_from_id(&first_branch.statement_ids()[0]).statement,
        statement('B')
    );

    let (_, second_branch) = iter.next().unwrap();

    assert_eq!(
        second_branch.statement_from_id(&second_branch.statement_ids()[0]).statement,
        statement('A')
    );

    match iter.next() {
        Some(_) => assert!(false),
        _ => {}
    }
}

#[test]
fn truth_tree_traverse_downwards_branch_ids() {
    let mut truth_tree = TruthTree::new(Branch::new(vec![node('A')]));

    let root_id = truth_tree.main_trunk_id();

    let child_branch_1_id = truth_tree.append_branch_at(Branch::new(vec![node('B')]), &root_id);

    let child_branch_2_id =
        truth_tree.append_branch_at(Branch::new(vec![node('C')]), &child_branch_1_id);

    let mut iter = truth_tree.traverse_downwards_branches_ids(&root_id).into_iter();

    assert_eq!(iter.next(), Some(root_id.clone()));
    assert_eq!(iter.next(), Some(child_branch_1_id));
    assert_eq!(iter.next(), Some(child_branch_2_id));
    assert_eq!(iter.next(), None);
}

#[test]
fn truth_tree_traverse_branch_direct_descendants_ids() {
    let mut truth_tree = TruthTree::new(Branch::new(vec![node('A')]));

    let root_id = truth_tree.main_trunk_id();

    let child_branch_1_id = truth_tree.append_branch_at(Branch::new(vec![node('B')]), &root_id);

    truth_tree.append_branch_at(Branch::new(vec![node('C')]), &child_branch_1_id);

    let mut iter = truth_tree.traverse_branch_direct_descendants_ids(&root_id).into_iter();

    assert_eq!(iter.next(), Some(child_branch_1_id));
    assert_eq!(iter.next(), None);
}

#[test]
fn truth_tree_branch_is_last_child() {
    let mut truth_tree = TruthTree::new(Branch::new(vec![node('A')]));

    let root_id = truth_tree.main_trunk_id();

    let child_branch_1_id = truth_tree.append_branch_at(Branch::new(vec![node('B')]), &root_id);

    assert!(!truth_tree.branch_is_last_child(&root_id), "root is not last child");

    assert!(truth_tree.branch_is_last_child(&child_branch_1_id), "child_branch_1 is last child");
}

#[test]
fn truth_tree_branch_from_id_mut() {
    let mut truth_tree = TruthTree::new(Branch::new(vec![node('A')]));

    let root_id = truth_tree.main_trunk_id();

    let branch = truth_tree.branch_from_id_mut(&root_id);

    branch.append_statement(node('B'));

    let mut statements_iter = branch.statement_ids().into_iter();

    assert_eq!(
        branch.statement_from_id(&statements_iter.next().unwrap()).statement,
        statement('A')
    );
    assert_eq!(
        branch.statement_from_id(&statements_iter.next().unwrap()).statement,
        statement('B')
    );
}

#[test]
fn truth_tree_branch_from_id() {
    let truth_tree = TruthTree::new(Branch::new(vec![node('A')]));

    let root_id = truth_tree.main_trunk_id();

    let branch = truth_tree.branch_from_id(&root_id);

    let first_statement_id = branch.statement_ids()[0];

    assert_eq!(branch.statement_from_id(&first_statement_id).statement, statement('A'));
}

#[test]
fn truth_tree_append_branch_at() {
    let mut truth_tree = TruthTree::new(Branch::new(vec![node('A')]));

    let root_id = truth_tree.main_trunk_id();

    let child_branch_1_id = truth_tree.append_branch_at(Branch::new(vec![node('B')]), &root_id);

    let mut iter = truth_tree.traverse_downwards_branches_ids(&root_id).into_iter();

    assert_eq!(iter.next(), Some(root_id.clone()));
    assert_eq!(iter.next(), Some(child_branch_1_id.clone()));
    assert_eq!(iter.next(), None);
}

#[test]
fn truth_tree_is_open() {
    let mut truth_tree = TruthTree::new(Branch::new(vec![node('A')]));

    assert!(truth_tree.is_open(), "returned not open but tree is open");

    let root_id = truth_tree.main_trunk_id();
    truth_tree.branch_from_id_mut(&root_id).close();

    assert!(!truth_tree.is_open(), "returned open but tree is not open");
}

#[test]
fn three_level_traversals() {
    let (tree, root, child, grandchild) = three_levels();
    assert_eq!(
        tree.traverse_upwards_branch_ids(&grandchild),
        vec![grandchild.clone(), child.clone(), root.clone()]
    );
    assert_eq!(
        tree.traverse_downwards_branches_ids(&root),
        vec![root.clone(), child.clone(), grandchild.clone()]
    );
    assert_eq!(tree.traverse_branch_direct_descendants_ids(&root), vec![child.clone()]);
    assert!(tree.branch_is_leaf(&grandchild));
    assert!(!tree.branch_is_leaf(&root));
}

#[test]
fn three_level_openness() {
    let (mut tree, _root, _child, grandchild) = three_levels();
    assert!(tree.is_open());
    tree.branch_from_id_mut(&grandchild).close();
    assert!(!tree.is_open());
}

#[test]
fn upwards_from_root_is_root_alone() {
    let (tree, root, _, _) = three_levels();
    assert_eq!(tree.traverse_upwards_branch_ids(&root), vec![root.clone()]);
}

#[test]
fn downwards_visits_each_branch_once() {
    let mut tree = TruthTree::new(Branch::new(vec![node('A')]));
    let root = tree.main_trunk_id();
    let left = tree.append_branch_at(Branch::new(vec![node('B')]), &root);
    let right = tree.append_branch_at(Branch::new(vec![node('C')]), &root);
    let left_left = tree.append_branch_at(Branch::new(vec![node('D')]), &left);
    let ids = tree.traverse_downwards_branches_ids(&root);
    assert_eq!(ids, vec![root.clone(), left.clone(), left_left.clone(), right.clone()]);
    assert_eq!(
        tree.traverse_branch_direct_descendants_ids(&root),
        vec![left.clone(), right.clone()]
    );
    let from_left = tree.traverse_downwards_branches(&left);
    assert_eq!(from_left.len(), 2);
    assert_eq!(from_left[1].1.statement_from_id(&StatementId(0)).statement, statement('D'));
}

#[test]
fn closing_an_interior_branch_keeps_the_tree_open() {
    let (mut tree, root, _, _) = three_levels();
    tree.branch_from_id_mut(&root).close();
    assert!(tree.is_open());
}

#[test]
fn direct_descendants_with_branches() {
    let (tree, root, child, _) = three_levels();
    let children = tree.traverse_branch_direct_descendants(&root);
    assert_eq!(children.len(), 1);
    assert_eq!(children[0].0, child);
    assert_eq!(children[0].1.statement_from_id(&StatementId(0)).statement, statement('B'));
}

#[test]
fn branch_append_close_and_ids() {
    let mut branch = Branch::new(vec![node('A')]);
    let id = branch.append_statement(node('B'));
    assert_eq!(id, StatementId(1));
    assert_eq!(branch.statement_ids(), vec![StatementId(0), StatementId(1)]);
    assert!(!branch.is_closed());
    branch.close();
    branch.close();
    assert!(branch.is_closed());
    let copy = branch.statement_from_id(&StatementId(1)).clone();
    assert_eq!(copy.statement, statement('B'));
    assert!(copy.derived_from.is_none());
}

#[test]
fn provenance_is_kept() {
    let (mut tree, root, child, _) = three_levels();
    let derived = BranchNode {
        statement: statement('D'),
        derived_from: Some((root.clone(), StatementId(0))),
    };
    let id = tree.branch_from_id_mut(&child).append_statement(derived);
    let stored = tree.branch_from_id(&child).statement_from_id(&id);
    assert_eq!(stored.derived_from, Some((root, StatementId(0))));
}

#[test]
fn appending_under_a_closed_branch_is_refused() {
    let (mut tree, root, child, grandchild) = three_levels();
    tree.branch_from_id_mut(&grandchild).close();
    assert!(tree.try_append_branch_at(Branch::new(vec![node('D')]), &grandchild).is_none());
    assert!(tree.try_append_branch_at(Branch::new(vec![node('D')]), &grandchild).is_none());
    assert!(tree.branch_is_leaf(&grandchild));
    let added = tree.try_append_branch_at(Branch::new(vec![node('E')]), &child);
    assert!(added.is_some());
    assert_eq!(tree.traverse_downwards_branches_ids(&root).len(), 4);
}
