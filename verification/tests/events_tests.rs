use keygen::events::{parse_accepted_event, parse_usize, split_commas};

fn texts(fields: Vec<Vec<char>>) -> Vec<String> {
    fields.into_iter().map(|f| f.into_iter().collect()).collect()
}

#[test]
fn fields_split_at_every_comma() {
    assert_eq!(texts(split_commas("a,bc,,d")), vec!["a", "bc", "", "d"]);
    assert_eq!(texts(split_commas("")), vec![""]);
    assert_eq!(texts(split_commas(",")), vec!["", ""]);
}

#[test]
fn accepted_lines_give_swaps_and_delta() {
    assert_eq!(
        parse_accepted_event("1700000000,0,42,accepted,1.234567,3,-0.0125"),
        Some((3, "-0.0125".to_string()))
    );
    assert_eq!(parse_accepted_event("1700000000,0,42,accepted,1.2,2,x,extra"), Some((2, "x".to_string())));
}

#[test]
fn other_lines_give_nothing() {
    assert_eq!(parse_accepted_event("ts,worker_id,iter,event_type,penalty,swaps_used,delta_to_prev"), None);
    assert_eq!(parse_accepted_event("1700000000,0,42,best,1.2,3,0.5"), None);
    assert_eq!(parse_accepted_event("1700000000,0,42,accepted,1.2,three,0.5"), None);
    assert_eq!(parse_accepted_event("1700000000,0,42,accepted,1.2,3"), None);
    assert_eq!(parse_accepted_event(""), None);
}

#[test]
fn usize_fields() {
    let digits: Vec<char> = "+17".chars().collect();
    assert_eq!(parse_usize(&digits), Some(17));
    let bad: Vec<char> = "1 7".chars().collect();
    assert_eq!(parse_usize(&bad), None);
    let empty: Vec<char> = Vec::new();
    assert_eq!(parse_usize(&empty), None);
}
