use faex::bitvec::{BitVec, BitVecSpec};
use faex::dense_sampling_rank::DenseSamplingRank;
use faex::rrr_bitvec::RRRBitVec;
use faex::sparse_sampling_rank::SparseSamplingRank;
use faex::wavelet_tree::{WaveletTree, WaveletTreeNode, WaveletTreeSpec};
use faex::Build;

fn bits(b: &[bool]) -> BitVec {
    BitVec::from_bools(b)
}

fn build_test_wt() -> WaveletTreeNode<BitVec> {
    let a_leaf = WaveletTreeNode::<BitVec>::Leaf { len: 1 };
    let b_leaf = WaveletTreeNode::<BitVec>::Leaf { len: 2 };
    let e_leaf = WaveletTreeNode::<BitVec>::Leaf { len: 4 };
    let h_leaf = WaveletTreeNode::<BitVec>::Leaf { len: 2 };
    let i_leaf = WaveletTreeNode::<BitVec>::Leaf { len: 2 };
    let n_leaf = WaveletTreeNode::<BitVec>::Leaf { len: 2 };
    let o_leaf = WaveletTreeNode::<BitVec>::Leaf { len: 5 };
    let q_leaf = WaveletTreeNode::<BitVec>::Leaf { len: 1 };
    let r_leaf = WaveletTreeNode::<BitVec>::Leaf { len: 1 };
    let s_leaf = WaveletTreeNode::<BitVec>::Leaf { len: 2 };
    let t_leaf = WaveletTreeNode::<BitVec>::Leaf { len: 7 };
    let u_leaf = WaveletTreeNode::<BitVec>::Leaf { len: 1 };

    let a_b_internal = WaveletTreeNode::<BitVec>::Internal {
        left: Box::new(a_leaf),
        right: Box::new(b_leaf),
        bit_vec: bits(&[true, true, false]),
    };
    let b_e_internal = WaveletTreeNode::<BitVec>::Internal {
        left: Box::new(a_b_internal),
        right: Box::new(e_leaf),
        bit_vec: bits(&[false, true, false, true, false, true, true]),
    };
    let h_i_internal = WaveletTreeNode::<BitVec>::Internal {
        left: Box::new(h_leaf),
        right: Box::new(i_leaf),
        bit_vec: bits(&[false, true, false, true]),
    };
    let h_n_internal = WaveletTreeNode::<BitVec>::Internal {
        left: Box::new(h_i_internal),
        right: Box::new(n_leaf),
        bit_vec: bits(&[true, false, false, false, false, true]),
    };
    let b_n_internal = WaveletTreeNode::<BitVec>::Internal {
        left: Box::new(b_e_internal),
        right: Box::new(h_n_internal),
        bit_vec: bits(&[
            false, false, true, false, false, true, false, true, true, false, false, true, true,
        ]),
    };
    let o_q_internal = WaveletTreeNode::<BitVec>::Internal {
        left: Box::new(o_leaf),
        right: Box::new(q_leaf),
        bit_vec: bits(&[false, false, false, false, true, false]),
    };
    let o_r_internal = WaveletTreeNode::<BitVec>::Internal {
        left: Box::new(o_q_internal),
        right: Box::new(r_leaf),
        bit_vec: bits(&[false, false, true, false, false, false, false]),
    };
    let s_t_internal = WaveletTreeNode::<BitVec>::Internal {
        left: Box::new(s_leaf),
        right: Box::new(t_leaf),
        bit_vec: bits(&[true, true, true, true, true, false, true, false, true]),
    };
    let s_u_internal = WaveletTreeNode::<BitVec>::Internal {
        left: Box::new(s_t_internal),
        right: Box::new(u_leaf),
        bit_vec: bits(&[false, false, false, false, false, false, false, true, false, false]),
    };
    let o_u_internal = WaveletTreeNode::<BitVec>::Internal {
        left: Box::new(o_r_internal),
        right: Box::new(s_u_internal),
        bit_vec: bits(&[
            true, false, false, false, false, true, true, false, true, true, true, true, false,
            true, true, true, false,
        ]),
    };
    WaveletTreeNode::<BitVec>::Internal {
        left: Box::new(b_n_internal),
        right: Box::new(o_u_internal),
        bit_vec: bits(&[
            true, true, false, false, true, true, false, true, true, true, true, false, false,
            true, false, false, true, false, true, true, false, false, true, true, false, true,
            true, false, true, false,
        ]),
    }
}

#[test]
fn wavelet_new() {
    let data = "tobeornottobethatisthequestion".to_string();
    let spec = BitVec::spec();
    let wt = WaveletTree::new(&data, &spec);

    let expected_root = build_test_wt();
    let mut expected_alphabet: Vec<char> = data.chars().collect();
    expected_alphabet.sort();
    expected_alphabet.dedup();
    let expected_len = 30;

    assert_eq!(wt.root(), &expected_root);
    assert_eq!(wt.alphabet(), expected_alphabet.as_slice());
    assert_eq!(wt.len(), expected_len);
    assert_eq!(
        wt.alphabet(),
        &['a', 'b', 'e', 'h', 'i', 'n', 'o', 'q', 'r', 's', 't', 'u']
    );
}

#[test]
fn new_when_single_char_alphabet() {
    let data = "aaa".to_string();
    let spec = BitVec::spec();
    let wt = WaveletTree::new(&data, &spec);

    let expected_root = WaveletTreeNode::<BitVec>::Leaf { len: 3 };
    let expected_alphabet = vec!['a'];
    let expected_len = 3;

    assert_eq!(wt.root(), &expected_root);
    assert_eq!(wt.alphabet(), expected_alphabet.as_slice());
    assert_eq!(wt.len(), expected_len);
}

#[test]
fn tests_access() {
    let data = "tobeornottobethatisthequestion".to_string();
    let spec = BitVec::spec();
    let wt = WaveletTree::new(&data, &spec);

    for (i, char) in data.chars().enumerate() {
        assert_eq!(wt.access(i).unwrap(), char);
    }
    assert_eq!(wt.access(data.len()), None);
}

#[test]
fn rank() {
    let data = "tobeornottobethatisthequestion".to_string();
    let spec = BitVec::spec();
    let wt = WaveletTree::new(&data, &spec);

    assert_eq!(wt.rank('t', 0).unwrap(), 0);
    assert_eq!(wt.rank('t', 1).unwrap(), 1);
    assert_eq!(wt.rank('t', 2).unwrap(), 1);
    assert_eq!(wt.rank('t', 8).unwrap(), 1);
    assert_eq!(wt.rank('t', 9).unwrap(), 2);
    assert_eq!(wt.rank('o', 0).unwrap(), 0);
    assert_eq!(wt.rank('o', 1).unwrap(), 0);
    assert_eq!(wt.rank('o', 2).unwrap(), 1);
    assert_eq!(wt.rank('o', 30).unwrap(), 5);
    assert_eq!(wt.rank('i', 18).unwrap(), 1);
}

#[test]
fn rank_when_single_char_alphabet() {
    let data = "aaa".to_string();
    let spec = BitVec::spec();
    let wt = WaveletTree::new(&data, &spec);

    assert_eq!(wt.rank('a', 0).unwrap(), 0);
    assert_eq!(wt.rank('a', 1).unwrap(), 1);
    assert_eq!(wt.rank('a', 2).unwrap(), 2);
    assert_eq!(wt.rank('a', 3).unwrap(), 3);
}

#[test]
fn rank_when_char_not_in_alphabet() {
    let data = "text".to_string();
    let spec = BitVec::spec();
    let wt = WaveletTree::new(&data, &spec);

    assert!(wt.rank('a', 0).is_none());
}

#[test]
fn select() {
    let data = "tobeornottobethatisthequestion".to_string();
    let spec = DenseSamplingRank::spec(4);
    let wt = WaveletTree::new(&data, &spec);

    assert_eq!(wt.select('t', 0).unwrap(), 0);
    assert_eq!(wt.select('t', 1).unwrap(), 1);
    assert_eq!(wt.select('t', 2).unwrap(), 9);
    assert_eq!(wt.select('t', 3).unwrap(), 10);
    assert_eq!(wt.select('t', 4).unwrap(), 14);
    assert_eq!(wt.select('o', 1).unwrap(), 2);
    assert_eq!(wt.select('o', 2).unwrap(), 5);
    assert_eq!(wt.select('o', 3).unwrap(), 8);
    assert_eq!(wt.select('i', 1).unwrap(), 18);
    assert_eq!(wt.select('i', 2).unwrap(), 28);
}

#[test]
fn select_when_single_char_alphabet() {
    let data = "aaa".to_string();
    let spec = BitVec::spec();
    let wt = WaveletTree::new(&data, &spec);

    assert_eq!(wt.select('a', 0).unwrap(), 0);
    assert_eq!(wt.select('a', 1).unwrap(), 1);
    assert_eq!(wt.select('a', 2).unwrap(), 2);
    assert_eq!(wt.select('a', 3).unwrap(), 3);
}

#[test]
fn select_when_char_not_in_alphabet() {
    let data = "text".to_string();
    let spec = BitVec::spec();
    let wt = WaveletTree::new(&data, &spec);

    assert!(wt.select('a', 0).is_none());
}

#[test]
fn contains_and_past_the_end() {
    let wt = WaveletTree::new("banana", &BitVec::spec());
    assert!(wt.contains(&'n'));
    assert!(!wt.contains(&'z'));
    assert_eq!(wt.rank('a', 7), None);
    assert_eq!(wt.select('a', 4), None);
    assert_eq!(wt.select('a', 3), Some(6));
    assert!(!wt.is_empty());
}

fn check_identity<T>(wt: &WaveletTree<T>, text: &str)
where
    T: faex::rank_select::Rank + faex::rank_select::Select + faex::rank_select::Access,
{
    let chars: Vec<char> = text.chars().collect();
    for (i, &c) in chars.iter().enumerate() {
        assert_eq!(wt.access(i), Some(c));
        let before = wt.rank(c, i).unwrap();
        let after = wt.rank(c, i + 1).unwrap();
        assert_eq!(after - before, 1);
        assert_eq!(wt.select(c, after), Some(i + 1));
    }
}

#[test]
fn every_node_engine_gives_the_same_answers() {
    let text = "mississippi river banks, 1234 and unicode: ñandú λ";
    let plain = WaveletTree::new(text, &BitVecSpec::new());
    check_identity(&plain, text);
    let rrr = WaveletTree::new(text, &RRRBitVec::spec(5, 2));
    check_identity(&rrr, text);
    let dense = WaveletTree::new(text, &DenseSamplingRank::spec(1));
    check_identity(&dense, text);
    let sparse = WaveletTree::new(text, &SparseSamplingRank::spec(3));
    check_identity(&sparse, text);
}

#[test]
fn built_through_its_spec() {
    let spec: WaveletTreeSpec<BitVecSpec> = WaveletTree::<BitVec>::spec(BitVec::spec());
    let wt: WaveletTree<BitVec> = spec.build("abracadabra");
    assert_eq!(wt.rank('a', 11), Some(5));
    assert_eq!(wt.select('r', 2), Some(10));
    assert_eq!(wt.access(4), Some('c'));
}

#[test]
fn built_from_owned_and_borrowed_strings() {
    let text = String::from("mississippi");
    let spec = WaveletTree::<BitVec>::spec(BitVec::spec());
    let from_ref: WaveletTree<BitVec> = spec.build(&text);
    let from_owned: WaveletTree<BitVec> = spec.build(text.clone());
    for i in 0..text.len() {
        assert_eq!(from_ref.access(i), from_owned.access(i));
    }
    assert_eq!(from_owned.rank('s', 11), Some(4));
    assert_eq!(from_ref.select('p', 1), Some(9));
}
