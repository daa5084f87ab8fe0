use git_metafile::iter_ext::IteratorExt;

#[test]
fn inspect_err() {
    let input = vec![Ok(0), Err("err1"), Ok(2), Err("err3")];
    let mut inspected = vec![];

    let output = input
        .clone()
        .into_iter()
        .inspect_err(|&e| inspected.push(e))
        .collect();

    // Does not modify the iterated vec.
    assert_eq!(&output[..], &input[..]);

    // Inspects Err values.
    assert_eq!(&inspected[..], ["err1", "err3"]);
}

#[test]
fn inspect_err_hands_items_on_one_by_one() {
    let input: Vec<Result<u8, String>> = vec![Err("first".to_string()), Ok(7)];
    let mut seen: Vec<String> = vec![];
    {
        let mut inspected = input.clone().into_iter().inspect_err(|e| seen.push(e.clone()));
        assert_eq!(inspected.next(), Some(Err("first".to_string())));
        assert_eq!(inspected.next(), Some(Ok(7)));
        assert_eq!(inspected.next(), None);
    }
    assert_eq!(seen, vec!["first".to_string()]);
}

#[test]
fn inspect_err_without_errors_calls_nothing() {
    let input: Vec<Result<u8, String>> = vec![Ok(1), Ok(2)];
    let mut calls: usize = 0;
    let output = input.clone().into_iter().inspect_err(|_| calls += 1).collect();
    assert_eq!(output, input);
    assert_eq!(calls, 0);
}
