use crustydb::logical_plan::logical_op::{
    LogicalOp, PredicateOp, ProjectIdentifiers, ProjectNode, ScanNode,
};
use crustydb::logical_plan::LogicalPlan;
use crustydb::common::Field;

#[test]
fn test_new() {
    let lp = LogicalPlan::new();
    assert_eq!(lp.node_count(), 0);
    assert_eq!(lp.edge_count(), 0);
    assert_eq!(lp.root, None);
}

#[test]
fn test_add_node() {
    let count = 10;
    let mut lp = LogicalPlan::new();
    for i in 0..count {
        lp.add_node(LogicalOp::Scan(ScanNode {
            alias: i.to_string(),
        }));
    }
    assert_eq!(lp.node_count(), count);
}

#[test]
fn test_add_edge() {
    let count = 10;
    let mut lp = LogicalPlan::new();
    let mut prev = lp.add_node(LogicalOp::Scan(ScanNode {
        alias: 0.to_string(),
    }));
    for i in 0..count {
        let curr = lp.add_node(LogicalOp::Scan(ScanNode {
            alias: i.to_string(),
        }));
        lp.add_edge(curr, prev);
        prev = curr;
    }
    assert_eq!(lp.root, Some(prev));
    assert_eq!(lp.edge_count(), count);
}

#[test]
fn test_add_two_edges() {
    let mut lp = LogicalPlan::new();
    let parent = lp.add_node(LogicalOp::Scan(ScanNode {
        alias: String::from("parent"),
    }));
    let child1 = lp.add_node(LogicalOp::Scan(ScanNode {
        alias: String::from("child1"),
    }));
    let child2 = lp.add_node(LogicalOp::Scan(ScanNode {
        alias: String::from("child2"),
    }));
    lp.add_edge(parent, child1);
    lp.add_edge(parent, child2);
    assert_eq!(lp.edge_count(), 2);
}

#[test]
fn test_edges() {
    let mut lp = LogicalPlan::new();
    let parent = lp.add_node(LogicalOp::Scan(ScanNode {
        alias: String::from("parent"),
    }));
    let child1 = lp.add_node(LogicalOp::Scan(ScanNode {
        alias: String::from("child1"),
    }));
    let child2 = lp.add_node(LogicalOp::Scan(ScanNode {
        alias: String::from("child2"),
    }));
    lp.add_edge(parent, child1);
    lp.add_edge(parent, child2);
    let mut edges = lp.edges(parent).into_iter();
    assert_eq!(edges.next(), Some(child2));
    assert_eq!(edges.next(), Some(child1));
}

#[test]
fn test_get_operator() {
    let count = 5;
    let mut nodes = Vec::new();
    let mut lp = LogicalPlan::new();
    for i in 0..count {
        let index = lp.add_node(LogicalOp::Scan(ScanNode {
            alias: i.to_string(),
        }));
        nodes.push(index);
    }

    for i in 0..count {
        let expected = i.to_string();
        match lp.get_operator(nodes[i]) {
            Some(LogicalOp::Scan(s)) => {
                assert_eq!(expected, s.alias);
            }
            _ => panic!("Incorrect operator"),
        }
    }
}

#[test]
fn test_root_follows_edges() {
    // wiring a consumer above the root moves the root to the consumer
    let mut lp = LogicalPlan::new();
    let scan = lp.add_node(LogicalOp::Scan(ScanNode {
        alias: String::from("t"),
    }));
    let project = lp.add_node(LogicalOp::Project(ProjectNode {
        identifiers: ProjectIdentifiers::Wildcard,
    }));
    assert_eq!(lp.root(), Some(scan));
    lp.add_edge(project, scan);
    assert_eq!(lp.root(), Some(project));
}

#[test]
fn test_predicate_compare_ints() {
    let a = Field::IntField(3);
    let b = Field::IntField(5);
    assert!(PredicateOp::LessThan.compare(&a, &b));
    assert!(!PredicateOp::GreaterThan.compare(&a, &b));
    assert!(PredicateOp::LessThanOrEq.compare(&a, &a));
    assert!(PredicateOp::GreaterThanOrEq.compare(&b, &a));
    assert!(PredicateOp::Equals.compare(&a, &a));
    assert!(PredicateOp::NotEq.compare(&a, &b));
    assert!(PredicateOp::All.compare(&a, &b));
}

#[test]
fn test_predicate_compare_strings() {
    let a = Field::StringField(String::from("apple"));
    let b = Field::StringField(String::from("banana"));
    let a2 = Field::StringField(String::from("apple"));
    assert!(PredicateOp::LessThan.compare(&a, &b));
    assert!(PredicateOp::Equals.compare(&a, &a2));
    assert!(PredicateOp::NotEq.compare(&a, &b));
    // an integer orders before any string and equals none
    let i = Field::IntField(999);
    assert!(PredicateOp::LessThan.compare(&i, &a));
    assert!(!PredicateOp::Equals.compare(&i, &a));
}

#[test]
fn test_predicate_flip() {
    assert_eq!(PredicateOp::GreaterThan.flip(), PredicateOp::LessThan);
    assert_eq!(PredicateOp::LessThan.flip(), PredicateOp::GreaterThan);
    assert_eq!(PredicateOp::LessThanOrEq.flip(), PredicateOp::GreaterThanOrEq);
    assert_eq!(PredicateOp::GreaterThanOrEq.flip(), PredicateOp::LessThanOrEq);
    assert_eq!(PredicateOp::Equals.flip(), PredicateOp::Equals);
    assert_eq!(PredicateOp::All.flip(), PredicateOp::All);
}
