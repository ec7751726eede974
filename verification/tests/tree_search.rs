use mockery::fs_iterators::{search, BreadthFirstTreeIter, Node};

#[derive(Clone, PartialEq)]
struct TestTreeNode {
    content: i32,
    children: Vec<TestTreeNode>,
}

#[derive(Clone, PartialEq)]
struct TestNode {
    root: TestTreeNode,
    indices: Vec<usize>,
}

impl TestNode {
    fn this_node(&self) -> &TestTreeNode {
        self.indices
            .iter()
            .fold(&self.root, |node, &idx| &node.children[idx])
    }
}

impl Node for TestNode {
    type Item = i32;

    fn spec_content(&self) -> Self::Item {
        self.content()
    }

    fn spec_parent(&self) -> Option<Self> {
        self.parent()
    }

    fn spec_children(&self) -> Vec<Self> {
        self.children()
    }

    fn content(&self) -> Self::Item {
        self.this_node().content
    }

    fn parent(&self) -> Option<Self> {
        if self.indices.is_empty() {
            None
        } else {
            Some(TestNode {
                root: self.root.clone(),
                indices: self.indices[0..self.indices.len() - 1].to_vec(),
            })
        }
    }

    fn children(&self) -> Vec<Self> {
        let n = self.this_node();
        (0..n.children.len())
            .map(|i| {
                let mut indices = self.indices.clone();
                indices.push(i);
                TestNode {
                    root: self.root.clone(),
                    indices,
                }
            })
            .collect()
    }
}

fn leaf(content: i32) -> TestTreeNode {
    TestTreeNode {
        content,
        children: vec![],
    }
}

fn get_test_tree() -> TestTreeNode {
    // 0
    // +--1
    // |  +--2
    // |  +--3
    // |  |  +--4
    // |  +--5
    // +--6
    // +--7
    //    +--8
    //       +--9
    TestTreeNode {
        content: 0,
        children: vec![
            TestTreeNode {
                content: 1,
                children: vec![
                    leaf(2),
                    TestTreeNode {
                        content: 3,
                        children: vec![leaf(4)],
                    },
                    leaf(5),
                ],
            },
            leaf(6),
            TestTreeNode {
                content: 7,
                children: vec![TestTreeNode {
                    content: 8,
                    children: vec![leaf(9)],
                }],
            },
        ],
    }
}

fn node_at(indices: Vec<usize>) -> TestNode {
    TestNode {
        root: get_test_tree(),
        indices,
    }
}

#[test]
fn content_of_root() {
    let root = node_at(vec![]);
    assert_eq!(root.content(), 0);
}

#[test]
fn content_of_leaf() {
    let leaf = node_at(vec![0, 1, 0]);
    assert_eq!(leaf.content(), 4);
}

#[test]
fn children_of_root() {
    let root = node_at(vec![]);
    assert_eq!(
        root.children()
            .iter()
            .map(|n| n.content())
            .collect::<Vec<_>>(),
        vec![1, 6, 7]
    );
}

#[test]
fn parent_of_root() {
    let root = node_at(vec![]);
    assert!(root.parent().is_none());
}

#[test]
fn parent_of_branch() {
    let leaf = node_at(vec![0, 1]);
    assert_eq!(leaf.parent().map(|n| n.content()), Some(1));
}

#[test]
fn parent_of_leaf() {
    let leaf = node_at(vec![0, 1, 0]);
    assert_eq!(leaf.parent().map(|n| n.content()), Some(3));
}

#[test]
fn search_around_root_with_radius_0() {
    let root = node_at(vec![]);
    assert_eq!(search(root, 0), vec![0]);
}

#[test]
fn search_around_root_with_radius_1() {
    let root = node_at(vec![]);
    assert_eq!(search(root, 1), vec![0, 1, 6, 7]);
}

#[test]
fn search_around_root_with_radius_2() {
    let root = node_at(vec![]);
    assert_eq!(search(root, 2), vec![0, 1, 6, 7, 2, 3, 5, 8]);
}

#[test]
fn search_around_root_with_radius_3() {
    let root = node_at(vec![]);
    assert_eq!(search(root, 3), vec![0, 1, 6, 7, 2, 3, 5, 8, 4, 9]);
}

#[test]
fn search_around_branch_with_radius_0() {
    let root = node_at(vec![2]);
    assert_eq!(search(root, 0), vec![7]);
}

#[test]
fn search_around_branch_with_radius_1() {
    let root = node_at(vec![2]);
    assert_eq!(search(root, 1), vec![7, 8, 0]);
}

#[test]
fn search_around_branch_with_radius_2() {
    let root = node_at(vec![2]);
    assert_eq!(search(root, 2), vec![7, 8, 0, 9, 1, 6]);
}

#[test]
fn search_around_branch_with_radius_3() {
    let root = node_at(vec![2]);
    assert_eq!(search(root, 3), vec![7, 8, 0, 9, 1, 6, 2, 3, 5]);
}

#[test]
fn search_around_branch_with_radius_4() {
    let root = node_at(vec![2]);
    assert_eq!(search(root, 4), vec![7, 8, 0, 9, 1, 6, 2, 3, 5, 4]);
}

#[test]
fn search_around_leaf_with_radius_4() {
    let root = node_at(vec![0, 1, 0]);
    assert_eq!(search(root, 4), vec![4, 3, 1, 2, 5, 0, 6, 7]);
}

#[test]
fn search_beyond_the_depth_of_the_tree_ends() {
    let root = node_at(vec![2]);
    assert_eq!(search(root, 40), vec![7, 8, 0, 9, 1, 6, 2, 3, 5, 4]);
    let root = node_at(vec![2]);
    assert_eq!(
        search(root, usize::MAX),
        vec![7, 8, 0, 9, 1, 6, 2, 3, 5, 4]
    );
}

#[test]
fn search_goes_on_below_after_the_root_is_reached() {
    let leaf = node_at(vec![2, 0, 0]);
    assert_eq!(search(leaf, 3), vec![9, 8, 7, 0]);
    let leaf = node_at(vec![2, 0, 0]);
    assert_eq!(search(leaf, 5), vec![9, 8, 7, 0, 1, 6, 2, 3, 5]);
}

#[test]
fn a_wider_search_starts_with_the_narrower_one() {
    for radius in 0..6 {
        let narrow = search(node_at(vec![0, 1]), radius);
        let wide = search(node_at(vec![0, 1]), radius + 1);
        assert!(wide.len() >= narrow.len());
        assert_eq!(&wide[..narrow.len()], &narrow[..]);
    }
}

#[test]
fn iterator_yields_one_content_at_a_time() {
    let mut walk = BreadthFirstTreeIter::new(node_at(vec![2]), 1);
    assert_eq!(walk.get_node(0).map(|n| n.content()), Some(7));
    assert!(walk.get_node(1).is_none());
    assert_eq!(walk.next(), Some(7));
    assert_eq!(walk.next(), Some(8));
    assert_eq!(walk.next(), Some(0));
    assert_eq!(walk.next(), None);
    assert_eq!(walk.next(), None);
}

#[test]
fn relate_moves_one_ring_out_until_the_radius_is_used_up() {
    let mut walk = BreadthFirstTreeIter::new(node_at(vec![2]), 1);
    assert!(walk.relate());
    assert_eq!(walk.get_node(0).map(|n| n.content()), Some(8));
    assert_eq!(walk.get_node(1).map(|n| n.content()), Some(0));
    assert!(walk.get_node(2).is_none());
    assert!(!walk.relate());
    assert_eq!(walk.get_node(0).map(|n| n.content()), Some(8));
}

/// A node that notes down the content of each node whose children are asked
/// for.
#[derive(Clone)]
struct WatchedNode {
    node: TestNode,
    asked: std::rc::Rc<std::cell::RefCell<Vec<i32>>>,
}

impl PartialEq for WatchedNode {
    fn eq(&self, other: &Self) -> bool {
        self.node == other.node
    }
}

impl WatchedNode {
    fn watch(&self, node: TestNode) -> WatchedNode {
        WatchedNode {
            node,
            asked: self.asked.clone(),
        }
    }
}

impl Node for WatchedNode {
    type Item = i32;

    fn spec_content(&self) -> Self::Item {
        self.content()
    }

    fn spec_parent(&self) -> Option<Self> {
        self.parent()
    }

    fn spec_children(&self) -> Vec<Self> {
        self.children()
    }

    fn content(&self) -> Self::Item {
        self.node.content()
    }

    fn parent(&self) -> Option<Self> {
        self.node.parent().map(|up| self.watch(up))
    }

    fn children(&self) -> Vec<Self> {
        self.asked.borrow_mut().push(self.node.content());
        let below = self.node.children();
        below.into_iter().map(|child| self.watch(child)).collect()
    }
}

fn watched(indices: Vec<usize>) -> (WatchedNode, std::rc::Rc<std::cell::RefCell<Vec<i32>>>) {
    let asked = std::rc::Rc::new(std::cell::RefCell::new(Vec::new()));
    let node = WatchedNode {
        node: node_at(indices),
        asked: asked.clone(),
    };
    (node, asked)
}

#[test]
fn step_within_a_ring_raises_the_index_and_leaves_the_ring() {
    let mut walk = BreadthFirstTreeIter::new(node_at(vec![2]), 2);
    assert!(walk.relate());
    assert_eq!((walk.index, walk.degree), (0, 1));
    assert_eq!(walk.next(), Some(8));
    assert_eq!((walk.index, walk.degree), (1, 1));
    assert_eq!(walk.descendents.len(), 1);
    assert_eq!(walk.parent.as_ref().map(|n| n.content()), Some(0));
    assert_eq!(walk.me.as_ref().map(|n| n.content()), Some(7));
    assert_eq!(walk.next(), Some(0));
    assert_eq!((walk.index, walk.degree), (2, 1));
    assert_eq!(walk.descendents.len(), 1);
    assert_eq!(walk.parent.as_ref().map(|n| n.content()), Some(0));
    // the ring is used up: the next step moves on and yields from the next ring
    assert_eq!(walk.next(), Some(9));
    assert_eq!((walk.index, walk.degree), (1, 0));
    assert_eq!(walk.descendents.len(), 3);
    assert!(walk.parent.is_none());
    assert_eq!(walk.me.as_ref().map(|n| n.content()), Some(0));
}

#[test]
fn step_at_the_end_yields_nothing_and_changes_nothing() {
    let mut walk = BreadthFirstTreeIter::new(node_at(vec![2]), 0);
    assert_eq!(walk.next(), Some(7));
    for _ in 0..3 {
        assert_eq!(walk.next(), None);
        assert_eq!((walk.index, walk.degree), (1, 0));
        assert!(walk.descendents.is_empty());
        assert_eq!(walk.parent.as_ref().map(|n| n.content()), Some(7));
        assert!(walk.me.is_none());
    }
}

#[test]
fn children_are_asked_for_only_when_a_ring_is_used_up() {
    let (start, asked) = watched(vec![2]);
    let mut walk = BreadthFirstTreeIter::new(start, 3);
    assert_eq!(walk.next(), Some(7));
    assert!(asked.borrow().is_empty());
    assert_eq!(walk.next(), Some(8));
    assert_eq!(*asked.borrow(), vec![7]);
    assert_eq!(walk.next(), Some(0));
    assert_eq!(*asked.borrow(), vec![7]);
    assert_eq!(walk.next(), Some(9));
    assert_eq!(*asked.borrow(), vec![7, 8, 0]);
    assert_eq!(walk.next(), Some(1));
    assert_eq!(walk.next(), Some(6));
    assert_eq!(*asked.borrow(), vec![7, 8, 0]);
}

#[test]
fn find_makes_no_step_after_the_one_that_yields() {
    let (start, asked) = watched(vec![2]);
    let mut walk = BreadthFirstTreeIter::new(start, 3);
    assert_eq!(walk.find(|content: &i32| *content == 0), Some(0));
    assert_eq!(*asked.borrow(), vec![7]);
    assert_eq!((walk.index, walk.degree), (2, 2));
    assert_eq!(walk.next(), Some(9));
    assert_eq!(walk.find(|content: &i32| *content > 40), None);
    assert_eq!(walk.next(), None);
}

fn all_nodes() -> Vec<Vec<usize>> {
    vec![
        vec![],
        vec![0],
        vec![0, 0],
        vec![0, 1],
        vec![0, 1, 0],
        vec![0, 2],
        vec![1],
        vec![2],
        vec![2, 0],
        vec![2, 0, 0],
    ]
}

/// The number of edges on the way from one node of the tree to another.
fn edges_between(one: &[usize], other: &[usize]) -> usize {
    let shared = one
        .iter()
        .zip(other.iter())
        .take_while(|(a, b)| a == b)
        .count();
    (one.len() - shared) + (other.len() - shared)
}

fn contents_at(start: &[usize], edges: usize) -> Vec<i32> {
    let mut contents: Vec<i32> = all_nodes()
        .into_iter()
        .filter(|node| edges_between(start, node) == edges)
        .map(|node| node_at(node).content())
        .collect();
    contents.sort();
    contents
}

#[test]
fn wider_search_adds_the_nodes_one_edge_further_away_each_once() {
    for start in all_nodes() {
        for radius in 0..7 {
            let narrow = search(node_at(start.clone()), radius);
            let wide = search(node_at(start.clone()), radius + 1);
            let mut added = wide[narrow.len()..].to_vec();
            added.sort();
            assert_eq!(added, contents_at(&start, radius + 1));
        }
    }
}

#[test]
fn search_yields_each_node_within_its_radius_once() {
    for start in all_nodes() {
        for radius in 0..8 {
            let mut found = search(node_at(start.clone()), radius);
            found.sort();
            let mut within: Vec<i32> = (0..=radius)
                .flat_map(|edges| contents_at(&start, edges))
                .collect();
            within.sort();
            assert_eq!(found, within);
        }
    }
}
