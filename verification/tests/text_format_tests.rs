use data_assimilation::text_format::{
    format_observation_line, format_record, parse_observation_line, Record, parse_record, split_fields, LineError, ObservationLine,
};

fn fields(v: &[&str]) -> Vec<Vec<u8>> {
    v.iter().map(|s| s.as_bytes().to_vec()).collect()
}

#[test]
fn split_fields_cuts_at_every_space() {
    assert_eq!(split_fields(b"1 2  3"), fields(&["1", "2", "", "3"]));
    assert_eq!(split_fields(b"0.01"), fields(&["0.01"]));
    assert_eq!(split_fields(b""), fields(&[""]));
    assert_eq!(split_fields(b"a "), fields(&["a", ""]));
    assert_eq!(split_fields(b" a"), fields(&["", "a"]));
}

#[test]
fn split_fields_agrees_with_str_split() {
    for line in ["", " ", "x", "1.5 -2 3e4", "  two  spaces ", "time_span 0.2"] {
        let expected: Vec<Vec<u8>> = line.split(' ').map(|s| s.as_bytes().to_vec()).collect();
        assert_eq!(split_fields(line.as_bytes()), expected);
    }
}

#[test]
fn format_record_frames_fields() {
    let line = format_record(&b"0.01".to_vec(), &fields(&["1", "-2.5"]));
    assert_eq!(line, b"0.01 1 -2.5\n".to_vec());
    let empty = format_record(&b"3".to_vec(), &Vec::new());
    assert_eq!(empty, b"3\n".to_vec());
}

#[test]
fn record_round_trip() {
    let time = b"12.5".to_vec();
    let values = fields(&["1", "-0.000001", "NaN", "inf", "3"]);
    let line = format_record(&time, &values);
    assert_eq!(*line.last().unwrap(), b'\n');
    let r = parse_record(&line[..line.len() - 1]);
    assert_eq!(r.time, time);
    assert_eq!(r.values, values);
}

#[test]
fn parse_record_takes_first_field_as_time() {
    let r = parse_record(b"0.5 1 2");
    assert_eq!(r.time, b"0.5".to_vec());
    assert_eq!(r.values, fields(&["1", "2"]));
    let r = parse_record(b"7");
    assert_eq!(r.time, b"7".to_vec());
    assert!(r.values.is_empty());
}

#[test]
fn observation_keyword_lines() {
    match parse_observation_line(b"time_span 0.2") {
        Ok(ObservationLine::TimeSpan(v)) => assert_eq!(v, b"0.2".to_vec()),
        other => panic!("unexpected {:?}", other),
    }
    match parse_observation_line(b"simulation_time 100 extra") {
        Ok(ObservationLine::SimulationTime(v)) => assert_eq!(v, b"100".to_vec()),
        other => panic!("unexpected {:?}", other),
    }
}

#[test]
fn observation_keyword_without_value() {
    assert!(matches!(parse_observation_line(b"time_span"), Err(LineError::MissingValue)));
    assert!(matches!(parse_observation_line(b"simulation_time"), Err(LineError::MissingValue)));
}

#[test]
fn observation_datum_lines() {
    match parse_observation_line(b"1.5e-1 0.3 -0.2") {
        Ok(ObservationLine::Datum(r)) => {
            assert_eq!(r.time, b"1.5e-1".to_vec());
            assert_eq!(r.values, fields(&["0.3", "-0.2"]));
        }
        other => panic!("unexpected {:?}", other),
    }
    // a keyword must stand alone as the first field
    match parse_observation_line(b"time_spans 1") {
        Ok(ObservationLine::Datum(r)) => assert_eq!(r.time, b"time_spans".to_vec()),
        other => panic!("unexpected {:?}", other),
    }
    match parse_observation_line(b"") {
        Ok(ObservationLine::Datum(r)) => {
            assert!(r.time.is_empty());
            assert!(r.values.is_empty());
        }
        other => panic!("unexpected {:?}", other),
    }
}

#[test]
fn observation_lines_are_written_as_records() {
    let span = format_observation_line(&ObservationLine::TimeSpan(b"0.2".to_vec()));
    assert_eq!(span, b"time_span 0.2\n".to_vec());
    let length = format_observation_line(&ObservationLine::SimulationTime(b"100".to_vec()));
    assert_eq!(length, b"simulation_time 100\n".to_vec());
    let datum = format_observation_line(&ObservationLine::Datum(Record {
        time: b"1e-1".to_vec(),
        values: fields(&["8.414709848078965e-1"]),
    }));
    assert_eq!(datum, b"1e-1 8.414709848078965e-1\n".to_vec());
}

#[test]
fn observation_round_trip() {
    let lines = vec![
        ObservationLine::TimeSpan(b"0.01".to_vec()),
        ObservationLine::SimulationTime(b"100".to_vec()),
        ObservationLine::Datum(Record { time: b"0.5".to_vec(), values: fields(&["1", "-2"]) }),
        ObservationLine::Datum(Record { time: b"3".to_vec(), values: Vec::new() }),
    ];
    for l in lines {
        let bytes = format_observation_line(&l);
        let back = parse_observation_line(&bytes[..bytes.len() - 1]).unwrap();
        match (l, back) {
            (ObservationLine::TimeSpan(a), ObservationLine::TimeSpan(b)) => assert_eq!(a, b),
            (ObservationLine::SimulationTime(a), ObservationLine::SimulationTime(b)) => {
                assert_eq!(a, b)
            }
            (ObservationLine::Datum(a), ObservationLine::Datum(b)) => {
                assert_eq!(a.time, b.time);
                assert_eq!(a.values, b.values);
            }
            (a, b) => panic!("{:?} read back as {:?}", a, b),
        }
    }
}
