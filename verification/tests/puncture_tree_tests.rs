use pabs_crf::puncture_tree::PunctureTree;

#[test]
fn puncture_marks_only_its_tag() {
    let mut tree = PunctureTree::new(8);
    assert!(!tree.is_punctured(5).unwrap());
    assert!(tree.puncture(5).unwrap());
    assert!(!tree.puncture(5).unwrap());
    assert!(tree.is_punctured(5).unwrap());
    assert!(!tree.is_punctured(6).unwrap());
    assert_eq!(tree.get_punctured_tags(), vec![5]);
}

#[test]
fn out_of_range_tag_is_rejected() {
    let mut tree = PunctureTree::new(4);
    assert!(tree.puncture(16).is_err());
    assert!(tree.is_punctured(16).is_err());
}
