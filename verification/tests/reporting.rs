use city_stats::aggmap::AggregateMap;
use city_stats::parse::process_buffer;
use city_stats::pipeline::run_pipeline;
use city_stats::render::render_report;

fn report_of(input: &[u8]) -> String {
    let mut map = AggregateMap::new();
    process_buffer(input, &mut map);
    String::from_utf8(render_report(map)).unwrap()
}

#[test]
fn end_to_end_example() {
    let input = b"Hamburg;12.0\nBerlin;5.0\nHamburg;8.0\n";
    let out = run_pipeline(input, 1).unwrap();
    assert_eq!(
        String::from_utf8(out).unwrap(),
        "Result: Berlin=5.0/5.0/5.0, Hamburg=8.0/10.0/12.0"
    );
}

#[test]
fn chunk_count_does_not_change_the_report() {
    let input = b"Hamburg;12.0\nBerlin;5.0\nHamburg;8.0\nMunich;-1.5\nBerlin;2.5\n";
    let reference = run_pipeline(input, 1).unwrap();
    for n in 2..=9 {
        assert_eq!(run_pipeline(input, n).unwrap(), reference);
    }
}

#[test]
fn single_key_many_chunks_matches_single_pass() {
    let input = b"X;1.0\nX;2.0\nX;3.0\nX;4.0\nX;5.0\nX;6.0\n";
    let reference = report_of(input);
    for n in 1..=8 {
        let out = run_pipeline(input, n).unwrap();
        assert_eq!(String::from_utf8(out).unwrap(), reference);
    }
    assert_eq!(reference, "Result: X=1.0/3.5/6.0");
}

#[test]
fn malformed_line_tolerance_report() {
    assert_eq!(report_of(b"A;1.0\nBadLine\nB;2.0\n"), "Result: A=1.0/1.0/1.0, B=2.0/2.0/2.0");
}

#[test]
fn keys_are_sorted_bytewise_ascending() {
    assert_eq!(
        report_of(b"b;1.0\nB;2.0\na;3.0\nA;4.0\n"),
        "Result: A=4.0/4.0/4.0, B=2.0/2.0/2.0, a=3.0/3.0/3.0, b=1.0/1.0/1.0"
    );
}

#[test]
fn negative_values_render_with_sign() {
    assert_eq!(report_of(b"K;-0.5\nK;-1.5\n"), "Result: K=-1.5/-1.0/-0.5");
}

#[test]
fn mean_rounds_half_to_even() {
    // 0.1 and 0.2 average to 0.15: ties go to the even tenth, 0.2.
    assert_eq!(report_of(b"K;0.1\nK;0.2\n"), "Result: K=0.1/0.2/0.2");
    // 0.1 and 0.4 average to 0.25: ties go to the even tenth, 0.2.
    assert_eq!(report_of(b"L;0.1\nL;0.4\n"), "Result: L=0.1/0.2/0.4");
    // -0.1 and -0.2 average to -0.15: ties go to the even tenth, -0.2.
    assert_eq!(report_of(b"M;-0.1\nM;-0.2\n"), "Result: M=-0.2/-0.2/-0.1");
}

#[test]
fn empty_input_gives_empty_report() {
    assert_eq!(report_of(b""), "Result: ");
}

#[test]
fn zero_chunks_yields_no_report() {
    assert!(run_pipeline(b"A;1.0\n", 0).is_err());
}
