use running_average::aggregate::Aggregate;
use running_average::reply::{select_best, select_step, QueryableData};
use running_average::sample::parse_sample;

fn feed(agg: &mut Aggregate, samples: &[i32]) {
    for &v in samples {
        let text = format!("{v}");
        let accepted = agg.apply_payload(text.as_bytes());
        assert!(accepted);
    }
}

#[test]
fn totals_of_a_sample_sequence() {
    let mut agg = Aggregate::new();
    feed(&mut agg, &[5, -3, 10]);
    assert_eq!(agg.sum, 12);
    assert_eq!(agg.count, 3);
}

#[test]
fn totals_do_not_depend_on_order() {
    let mut a = Aggregate::new();
    let mut b = Aggregate::new();
    feed(&mut a, &[5, -3, 10]);
    feed(&mut b, &[10, 5, -3]);
    assert_eq!(a.sum, b.sum);
    assert_eq!(a.count, b.count);
}

#[test]
fn query_after_three_samples_returns_average_four() {
    let mut agg = Aggregate::new();
    feed(&mut agg, &[5, -3, 10]);
    let (sum, count) = agg.snapshot();
    assert_eq!(sum, 12);
    assert_eq!(count, 3);
    let average = sum as f64 / count as f64;
    assert_eq!(average, 4.0);
    let reply = agg.make_reply(average.to_bits());
    assert_eq!(reply.nb_values, 3);
    assert_eq!(f64::from_bits(reply.average_bits), 4.0);
}

#[test]
fn query_before_any_sample_returns_zero_default() {
    let agg = Aggregate::new();
    let (sum, count) = agg.snapshot();
    assert_eq!(sum, 0);
    assert_eq!(count, 0);
    // whatever bits a caller hands in, an empty aggregate answers +0.0
    let reply = agg.make_reply((123.5f64).to_bits());
    assert_eq!(reply.nb_values, 0);
    assert_eq!(f64::from_bits(reply.average_bits), 0.0);
}

#[test]
fn malformed_payloads_leave_the_aggregate_unchanged() {
    let mut agg = Aggregate::new();
    feed(&mut agg, &[5, -3, 10]);
    for payload in [
        b"abc".as_slice(),
        b"12x".as_slice(),
        b"".as_slice(),
        b"-".as_slice(),
        b"+".as_slice(),
        b"4.5".as_slice(),
        b" 7".as_slice(),
        b"7 ".as_slice(),
        b"2147483648".as_slice(),
    ] {
        let accepted = agg.apply_payload(payload);
        assert!(!accepted);
        assert_eq!(agg.sum, 12);
        assert_eq!(agg.count, 3);
    }
}

#[test]
fn parser_accepts_exactly_the_i32_texts() {
    assert_eq!(parse_sample(b"5"), Some(5));
    assert_eq!(parse_sample(b"-3"), Some(-3));
    assert_eq!(parse_sample(b"+10"), Some(10));
    assert_eq!(parse_sample(b"0"), Some(0));
    assert_eq!(parse_sample(b"-0"), Some(0));
    assert_eq!(parse_sample(b"007"), Some(7));
    assert_eq!(parse_sample(b"2147483647"), Some(i32::MAX));
    assert_eq!(parse_sample(b"-2147483648"), Some(i32::MIN));
    assert_eq!(parse_sample(b"2147483648"), None);
    assert_eq!(parse_sample(b"-2147483649"), None);
    assert_eq!(parse_sample(b"99999999999999999999"), None);
    assert_eq!(parse_sample(b""), None);
    assert_eq!(parse_sample(b"-"), None);
    assert_eq!(parse_sample(b"+"), None);
    assert_eq!(parse_sample(b"--5"), None);
    assert_eq!(parse_sample(b"5-"), None);
}

#[test]
fn client_selects_greatest_count_first_arrival_wins_ties() {
    let replies = vec![
        QueryableData::new((1.0f64).to_bits(), 3),
        QueryableData::new((2.0f64).to_bits(), 5),
        QueryableData::new((3.0f64).to_bits(), 5),
        QueryableData::new((4.0f64).to_bits(), 2),
    ];
    let best = select_best(&replies);
    assert_eq!(best.nb_values, 5);
    assert_eq!(f64::from_bits(best.average_bits), 2.0);
}

#[test]
fn client_ignores_replies_without_samples() {
    let replies = vec![
        QueryableData::new((9.0f64).to_bits(), 0),
        QueryableData::new((8.0f64).to_bits(), 0),
    ];
    let best = select_best(&replies);
    assert_eq!(best.nb_values, 0);
    assert_eq!(best.average_bits, 0);
}

#[test]
fn selection_step_replaces_only_on_strictly_greater_count() {
    let mut best = QueryableData::new(0, 0);
    select_step(&mut best, QueryableData::new((7.0f64).to_bits(), 4));
    assert_eq!(best.nb_values, 4);
    select_step(&mut best, QueryableData::new((6.0f64).to_bits(), 4));
    assert_eq!(f64::from_bits(best.average_bits), 7.0);
    select_step(&mut best, QueryableData::new((5.0f64).to_bits(), 6));
    assert_eq!(best.nb_values, 6);
    assert_eq!(f64::from_bits(best.average_bits), 5.0);
}
