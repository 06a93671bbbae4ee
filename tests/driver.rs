use binast_bench::decimal::Decimal;
use binast_bench::extract::ExtractError;
use binast_bench::report::decimal_ratio_hundredths;
use binast_bench::run::{
    configuration_matrix, parse_args, ConfigurationRun, HarnessError, MeasurementConfiguration,
    REPEAT_COUNT,
};
use binast_bench::timings::PerformanceTotals;

const ENGINE_OUTPUT: &[u8] = b"...Parser<>::parse() full duration: 12.50ms...\
Parser<>::parse() lazy duration: 3.25ms...ReadBinaryAST duration: 1.10ms...";

fn dec(mantissa: u64, scale: usize) -> Decimal {
    Decimal { mantissa, scale }
}

#[test]
fn no_source_is_a_usage_error() {
    assert_eq!(parse_args(vec!["js".to_string()]).unwrap_err(), HarnessError::Usage);
    assert_eq!(parse_args(vec![]).unwrap_err(), HarnessError::Usage);
}

#[test]
fn engine_then_sources() {
    let args = vec!["js".to_string(), "a.js".to_string(), "b.js".to_string()];
    let inv = parse_args(args).unwrap();
    assert_eq!(inv.engine, "js");
    assert_eq!(inv.sources, vec!["a.js".to_string(), "b.js".to_string()]);
}

#[test]
fn matrix_order() {
    let m = configuration_matrix();
    let expected: Vec<(bool, u64)> =
        vec![(false, 0), (false, 1), (false, 1000), (true, 0), (true, 1), (true, 1000)];
    let got: Vec<(bool, u64)> = m.iter().map(|c| (c.syntax_parse, c.skip_depth)).collect();
    assert_eq!(got, expected);
    assert_eq!(REPEAT_COUNT, 5);
}

#[test]
fn one_source_one_repeat_scenario() {
    let config = MeasurementConfiguration { syntax_parse: false, skip_depth: 0 };
    let mut run = ConfigurationRun::new(config, 1, 1);
    assert_eq!(run.next_source(), Some(0));
    assert!(run.record(true, ENGINE_OUTPUT).is_ok());
    assert_eq!(run.next_source(), None);
    let t = run.totals().unwrap();
    assert_eq!(t, PerformanceTotals { full: dec(1250, 2), lazy: dec(325, 2), encoded: dec(110, 2) });
    assert_eq!(decimal_ratio_hundredths(t.encoded, t.lazy), Ok(34));
    assert_eq!(decimal_ratio_hundredths(t.encoded, t.full), Ok(9));
}

#[test]
fn sources_cycle_per_repeat() {
    let config = MeasurementConfiguration { syntax_parse: true, skip_depth: 1 };
    let mut run = ConfigurationRun::new(config, 2, 2);
    let mut order = Vec::new();
    while let Some(i) = run.next_source() {
        order.push(i);
        run.record(true, ENGINE_OUTPUT).unwrap();
    }
    assert_eq!(order, vec![0, 1, 0, 1]);
    let t = run.totals().unwrap();
    assert_eq!(t.full, dec(5000, 2));
    assert_eq!(t.lazy, dec(1300, 2));
    assert_eq!(t.encoded, dec(440, 2));
}

#[test]
fn failed_engine_run_reports_no_totals() {
    let config = MeasurementConfiguration { syntax_parse: false, skip_depth: 1000 };
    let mut run = ConfigurationRun::new(config, 1, 1);
    assert_eq!(run.record(false, ENGINE_OUTPUT), Err(HarnessError::ExternalToolFailure));
    assert!(run.samples.is_empty());
    assert_eq!(run.totals(), Err(HarnessError::Incomplete));
}

#[test]
fn unreadable_output_is_an_extraction_error() {
    let config = MeasurementConfiguration { syntax_parse: false, skip_depth: 0 };
    let mut run = ConfigurationRun::new(config, 1, 1);
    assert_eq!(
        run.record(true, b"no timings"),
        Err(HarnessError::Extraction(ExtractError::MarkerNotFound))
    );
    assert_eq!(run.totals(), Err(HarnessError::Incomplete));
}

#[test]
fn no_sources_means_no_runs() {
    let config = MeasurementConfiguration { syntax_parse: false, skip_depth: 0 };
    let run = ConfigurationRun::new(config, 0, REPEAT_COUNT);
    assert_eq!(run.next_source(), None);
    assert_eq!(
        run.totals(),
        Ok(PerformanceTotals { full: dec(0, 0), lazy: dec(0, 0), encoded: dec(0, 0) })
    );
}
