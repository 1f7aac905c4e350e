use longest_increasing_subsequence::lis;
use longest_increasing_subsequence::lis_with;
use longest_increasing_subsequence::NaturalOrder;
use longest_increasing_subsequence::ReverseOrder;

#[test]
fn scenario_nine_two_eight_three_five() {
    let xs: Vec<i64> = vec![9, 2, 8, 3, 5];
    assert_eq!(lis(&xs), vec![1, 3, 4]);
}

#[test]
fn scenario_doc_sequence() {
    let xs: Vec<i64> = vec![2, 9, 4, 7, 3, 4, 5];
    assert_eq!(lis(&xs), vec![0, 4, 5, 6]);
}

#[test]
fn lis_with_appends_in_reverse_order() {
    let xs: Vec<i64> = vec![9, 2, 8, 3, 5];
    let mut out: Vec<usize> = Vec::new();
    let mut predecessors: Vec<usize> = vec![0; xs.len()];
    let mut starts: Vec<usize> = vec![0; xs.len()];
    lis_with(&xs, &mut out, &NaturalOrder, &mut predecessors, &mut starts);
    assert_eq!(out, vec![4, 3, 1]);
}

#[test]
fn empty_input_appends_nothing() {
    let xs: Vec<i64> = vec![];
    let mut out: Vec<usize> = vec![7];
    let mut predecessors: Vec<usize> = Vec::new();
    let mut starts: Vec<usize> = Vec::new();
    lis_with(&xs, &mut out, &NaturalOrder, &mut predecessors, &mut starts);
    assert_eq!(out, vec![7]);
}

#[test]
fn output_accumulates_across_calls() {
    let xs: Vec<i64> = vec![3, 4];
    let mut out: Vec<usize> = Vec::new();
    let mut predecessors: Vec<usize> = vec![0; xs.len()];
    let mut starts: Vec<usize> = vec![0; xs.len()];
    lis_with(&xs, &mut out, &NaturalOrder, &mut predecessors, &mut starts);
    lis_with(&xs, &mut out, &NaturalOrder, &mut predecessors, &mut starts);
    assert_eq!(out, vec![1, 0, 1, 0]);
}

#[test]
fn scratch_reuse_across_lengths() {
    let xs: Vec<i64> = vec![9, 2, 8, 3, 5];
    let mut out: Vec<usize> = Vec::new();
    let mut predecessors: Vec<usize> = vec![0; xs.len()];
    let mut starts: Vec<usize> = vec![0; xs.len()];
    lis_with(&xs, &mut out, &NaturalOrder, &mut predecessors, &mut starts);
    assert_eq!(out, vec![4, 3, 1]);

    let ys: Vec<i64> = vec![9, 8, 7, 6, 5, 4, 3, 2, 1, 0, 1, 2, 3, 4, 5, 6, 7, 8, 9];
    predecessors.resize(ys.len(), 0);
    starts.resize(ys.len(), 0);
    out.clear();
    lis_with(&ys, &mut out, &NaturalOrder, &mut predecessors, &mut starts);
    assert_eq!(out, vec![18, 17, 16, 15, 14, 13, 12, 11, 10, 9]);
}

#[test]
fn scratch_reuse_same_length_no_leakage() {
    let mut out: Vec<usize> = Vec::new();
    let mut predecessors: Vec<usize> = vec![0; 2];
    let mut starts: Vec<usize> = vec![0; 2];
    let xs: Vec<i64> = vec![3, 2];
    lis_with(&xs, &mut out, &NaturalOrder, &mut predecessors, &mut starts);
    assert_eq!(out, vec![1]);

    // The first call left index 1 in the tails buffer; the result for the
    // second input must not depend on that.
    let ys: Vec<i64> = vec![5, 0];
    out.clear();
    lis_with(&ys, &mut out, &NaturalOrder, &mut predecessors, &mut starts);
    assert_eq!(out, vec![1]);
}

#[test]
fn determinism_same_input_same_output() {
    let xs: Vec<i64> = vec![2, 6, 5, 2, 6, 5, 1, 9];
    assert_eq!(lis(&xs), lis(&xs));
}

#[test]
fn equal_values_keep_earliest() {
    let xs: Vec<i64> = vec![2, 2, 2];
    assert_eq!(lis(&xs), vec![0]);
}

#[test]
fn custom_order_finds_decreasing_run() {
    let xs: Vec<i64> = vec![1, 7, 5, 3, 9, 2];
    let mut out: Vec<usize> = Vec::new();
    let mut predecessors: Vec<usize> = vec![0; xs.len()];
    let mut starts: Vec<usize> = vec![0; xs.len()];
    lis_with(&xs, &mut out, &ReverseOrder, &mut predecessors, &mut starts);
    // Longest strictly decreasing run: values 7, 5, 3, 2 at indices
    // 1, 2, 3, 5, emitted end first.
    assert_eq!(out, vec![5, 3, 2, 1]);
}

#[test]
fn single_item() {
    let xs: Vec<i64> = vec![42];
    assert_eq!(lis(&xs), vec![0]);
}
