use etas::app::AppError;
use etas::simulation::Event;
use etas::table::{parse_table, render_table, Record};

fn record(time: &str, magnitude: &str, parent: usize) -> Record {
    Record { time: time.as_bytes().to_vec(), magnitude: magnitude.as_bytes().to_vec(), parent }
}

fn fields(rs: &[Record]) -> Vec<(Vec<u8>, Vec<u8>, usize)> {
    rs.iter().map(|r| (r.time.clone(), r.magnitude.clone(), r.parent)).collect()
}

#[test]
fn renders_rows_with_header() {
    let rs = vec![record("0.5", "1.25", 0), record("3", "0.1", 0), record("12.75", "2", 1)];
    let text = render_table(&rs, true);
    assert_eq!(
        String::from_utf8(text).unwrap(),
        "id,time,magnitude,parent\n0,0.5,1.25,0\n1,3,0.1,0\n2,12.75,2,1\n"
    );
}

#[test]
fn renders_rows_without_header() {
    let rs = vec![record("1", "2", 0)];
    assert_eq!(String::from_utf8(render_table(&rs, false)).unwrap(), "0,1,2,0\n");
    assert!(render_table(&vec![], false).is_empty());
    assert_eq!(
        String::from_utf8(render_table(&vec![], true)).unwrap(),
        "id,time,magnitude,parent\n"
    );
}

#[test]
fn renders_multi_digit_positions() {
    let rs: Vec<Record> = (0..12).map(|i| record("1", "1", i * 10)).collect();
    let text = String::from_utf8(render_table(&rs, false)).unwrap();
    let last = text.lines().last().unwrap();
    assert_eq!(last, "11,1,1,110");
}

#[test]
fn round_trip_restores_records() {
    let rs = vec![record("0.5", "1.25", 0), record("3", "0.1", 0), record("12.75", "2", 1)];
    for headers in [false, true] {
        let text = render_table(&rs, headers);
        let back = parse_table(&text, headers).unwrap();
        assert_eq!(fields(&back), fields(&rs));
    }
}

#[test]
fn round_trip_of_event_records() {
    let events = [
        Event { t: 0.25f32.to_bits(), m: 0.5f32.to_bits(), parent: None },
        Event { t: 1.5f32.to_bits(), m: 0.125f32.to_bits(), parent: Some(0) },
    ];
    let rs: Vec<Record> = events
        .iter()
        .map(|e| {
            Record::of_event(
                e,
                f32::from_bits(e.t).to_string().into_bytes(),
                f32::from_bits(e.m).to_string().into_bytes(),
            )
        })
        .collect();
    let back = parse_table(&render_table(&rs, true), true).unwrap();
    for (e, r) in events.iter().zip(back.iter()) {
        let t: f32 = String::from_utf8(r.time.clone()).unwrap().parse().unwrap();
        let m: f32 = String::from_utf8(r.magnitude.clone()).unwrap().parse().unwrap();
        assert_eq!(t.to_bits(), e.t);
        assert_eq!(m.to_bits(), e.m);
        assert_eq!(r.parent, e.parent.unwrap_or(0));
    }
}

#[test]
fn background_parent_is_written_as_zero() {
    let e = Event { t: 1, m: 2, parent: None };
    let r = Record::of_event(&e, b"a".to_vec(), b"b".to_vec());
    assert_eq!(r.parent, 0);
    let e = Event { t: 1, m: 2, parent: Some(7) };
    let r = Record::of_event(&e, b"a".to_vec(), b"b".to_vec());
    assert_eq!(r.parent, 7);
    assert_eq!(r.time, b"a".to_vec());
}

#[test]
fn malformed_tables_are_refused() {
    for text in [
        "0,1,2\n",
        "0,1,2,3",
        "1,1,2,0\n",
        "0,1,2,x\n",
        "00,1,2,0\n",
        "0,1,2,03\n",
        "0,1,2,99999999999999999999999\n",
    ] {
        assert!(parse_table(&text.as_bytes().to_vec(), false).is_none(), "{}", text);
    }
    assert!(parse_table(&b"id,time\n0,1,2,0\n".to_vec(), true).is_none());
    assert!(parse_table(&b"0,1,2,0\n".to_vec(), true).is_none());
}

#[test]
fn empty_table_parses_to_nothing() {
    assert_eq!(parse_table(&vec![], false).unwrap().len(), 0);
    assert_eq!(parse_table(&b"id,time,magnitude,parent\n".to_vec(), true).unwrap().len(), 0);
}

#[test]
fn error_messages() {
    assert_eq!(
        AppError::Save("disk full".to_owned()).message(),
        "Error when saving: disk full"
    );
    assert_eq!(
        AppError::Simulation("bad rate".to_owned()).message(),
        "Error during simulation: bad rate"
    );
    assert_eq!(
        AppError::InvalidArgument("p must be > 1".to_owned()).message(),
        "Wrong argument: p must be > 1"
    );
}
