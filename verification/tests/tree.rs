use redos_detector::tree::Tree;

#[test]
fn works_with_tokens() {
    let mut tree: Tree<Vec<u32>, u32, _> = Tree::new(|x: &Vec<u32>| x.clone());
    let a = 0u32;
    let b = 1u32;
    let c = 2u32;
    assert!(tree.items().is_empty());

    tree.add(vec![]);
    assert!(tree.items().is_empty());

    tree.add(vec![a]);
    assert_eq!(tree.items(), vec![&vec![a]]);

    tree.add(vec![a]);
    assert_eq!(tree.items(), vec![&vec![a]]);

    tree.add(vec![b]);
    assert_eq!(tree.items(), vec![&vec![a], &vec![b]]);

    tree.add(vec![a, b]);
    assert_eq!(tree.items(), vec![&vec![b], &vec![a, b]]);

    tree.add(vec![a, c]);
    assert_eq!(tree.items(), vec![&vec![b], &vec![a, b], &vec![a, c]]);
}

#[test]
fn works_with_decoder() {
    #[derive(PartialEq, Debug, Clone)]
    struct V {
        v: Vec<u32>,
    }
    let mut tree: Tree<V, u32, _> = Tree::new(|x: &V| x.v.clone());
    let a = 0u32;
    let b = 1u32;
    assert!(tree.items().is_empty());

    let v1 = V { v: vec![a] };
    tree.add(v1.clone());
    assert_eq!(tree.items(), vec![&v1]);

    tree.add(v1.clone());
    assert_eq!(tree.items(), vec![&v1]);

    let v2 = V { v: vec![b] };
    tree.add(v2.clone());
    assert_eq!(tree.items(), vec![&v1, &v2]);

    let v3 = V { v: vec![a, b] };
    tree.add(v3.clone());
    assert_eq!(tree.items(), vec![&v2, &v3]);
}

#[test]
fn prefix_of_earlier_keys_is_not_stored() {
    let mut tree: Tree<Vec<u32>, u32, _> = Tree::new(|x: &Vec<u32>| x.clone());
    tree.add(vec![1, 2, 3]);
    tree.add(vec![1, 2]);
    assert_eq!(tree.items(), vec![&vec![1, 2, 3]]);
    tree.add(vec![1, 2, 3, 4]);
    assert_eq!(tree.items(), vec![&vec![1, 2, 3, 4]]);
}
