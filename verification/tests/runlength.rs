use brainfuck_jit::runlength::{RunLength, RunLengthIterator};

#[test]
fn test_run_length() {
    let numbers: Vec<usize> = vec![1, 2, 2, 3, 3, 3, 4, 4, 4, 4];
    let mut rl = numbers.run_length();
    while let Some((length, number)) = rl.next() {
        assert_eq!(length, number);
    }

    let empty: Vec<char> = "".chars().collect();
    assert_eq!(None, RunLength::new(empty).next());
    let one: Vec<char> = "1".chars().collect();
    assert_eq!(Some((1, '1')), RunLength::new(one).next());
}

#[test]
fn run_length_collapses_maximal_runs() {
    let mut rl = vec![7u8, 7, 7, 9, 7].run_length();
    assert_eq!(rl.next(), Some((3, 7)));
    assert_eq!(rl.next(), Some((1, 9)));
    assert_eq!(rl.next(), Some((1, 7)));
    assert_eq!(rl.next(), None);
}
