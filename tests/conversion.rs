use checklog::classify::{classify_category, classify_range, Category};
use checklog::convert::{convert_table, merge_shares, Conversion};
use checklog::format::{last_segment_of, message_lines_of, push_connection_lines, push_padded, push_sequence_line};
use checklog::header::{resolve_header, Column};
use checklog::logset::LogSet;
use checklog::output::{log_file_text, output_path};
use checklog::partition::{row_range, worker_ranges};
use checklog::source::{convert_csv, ConvertError};

const HEADER: [&str; 11] = [
    "event_category",
    "event_type",
    "connection_name",
    "timestamp",
    "module_name",
    "line_number",
    "cell_key",
    "step_key",
    "level_name",
    "event_message",
    "response",
];

fn strings(v: &[&str]) -> Vec<String> {
    v.iter().map(|s| s.to_string()).collect()
}

/// A data row in the order of HEADER.
fn row(category: &str, event_type: &str, conn: &str, ts: &str, module: &str, line: &str,
       cell: &str, step: &str, level: &str, msg: &str, response: &str) -> Vec<String> {
    strings(&[category, event_type, conn, ts, module, line, cell, step, level, msg, response])
}

fn conn_row(conn: &str, ts: &str, event_type: &str, msg: &str) -> Vec<String> {
    row("connection", event_type, conn, ts, "", "", "", "", "", msg, "")
}

fn logs_of(set: &LogSet) -> Vec<(String, usize, String)> {
    (0..set.len())
        .map(|i| (set.name(i).to_string(), set.count(i), set.text(i).to_string()))
        .collect()
}

fn convert(records: &Vec<Vec<String>>, workers: usize) -> Conversion {
    match convert_table(records, workers) {
        Ok(c) => c,
        Err(c) => panic!("missing column {}", c.name()),
    }
}

fn example_table() -> Vec<Vec<String>> {
    vec![
        strings(&HEADER),
        row("seqlog", "", "", "T1", "M", "10", "C", "a|b", "INFO", "hello", ""),
        conn_row("A", "T2", "SEND", "ping"),
        conn_row("A", "T3", "RECV", "pong"),
    ]
}

const CONN_HEADER: &str = "timestamp               event_type    event_message\n";

#[test]
fn end_to_end_example() {
    let c = convert(&example_table(), 2);
    let logs = logs_of(&c.logs);
    assert_eq!(logs.len(), 2);
    assert_eq!(logs[0].0, "sequence");
    assert_eq!(logs[0].1, 1);
    assert_eq!(logs[0].2, "T1 M                        line:10   C b INFO    : hello\n");
    assert_eq!(logs[1].0, "A");
    assert_eq!(logs[1].1, 2);
    assert_eq!(logs[1].2, "T2 SEND      ping\nT3 RECV      pong\n");
    assert_eq!(
        log_file_text("A", &logs[1].2),
        format!("{CONN_HEADER}T2 SEND      ping\nT3 RECV      pong\n")
    );
    assert_eq!(log_file_text("sequence", &logs[0].2), logs[0].2);
}

#[test]
fn partition_ranges_cover_rows() {
    let r: Vec<(usize, usize)> = (1..=3).map(|i| {
        let x = row_range(10, 3, i);
        assert_eq!(x.worker_ordinal, i);
        (x.start, x.end)
    }).collect();
    assert_eq!(r, vec![(1, 4), (4, 7), (7, 11)]);
    assert_eq!((row_range(0, 2, 1).start, row_range(0, 2, 1).end), (1, 1));
    assert_eq!((row_range(0, 2, 2).start, row_range(0, 2, 2).end), (1, 1));
    assert_eq!((row_range(5, 1, 1).start, row_range(5, 1, 1).end), (1, 6));
    assert_eq!((row_range(3, 5, 4).start, row_range(3, 5, 4).end), (1, 1));
    assert_eq!((row_range(3, 5, 5).start, row_range(3, 5, 5).end), (1, 4));
    for total in 0..40usize {
        for w in 2..9usize {
            let mut next = 1;
            for i in 1..=w {
                let x = row_range(total, w, i);
                assert_eq!(x.start, next);
                assert!(x.start <= x.end);
                next = x.end;
            }
            assert_eq!(next, total + 1);
        }
    }
}

#[test]
fn merged_logs_keep_row_order_for_any_worker_count() {
    let mut t = vec![strings(&HEADER)];
    for k in 0..23 {
        let name = if k % 3 == 0 { "A" } else if k % 3 == 1 { "B" } else { "C" };
        t.push(conn_row(name, &format!("t{k}"), "EV", &format!("m{k}")));
        if k % 4 == 0 {
            t.push(row("seqlog", "", "", &format!("s{k}"), "mod", "1", "c", "x|y", "L", "msg", ""));
        }
    }
    let one = logs_of(&convert(&t, 1).logs);
    for w in 2..12 {
        assert_eq!(logs_of(&convert(&t, w).logs), one);
    }
    let a = &one.iter().find(|l| l.0 == "A").unwrap().2;
    let stamps: Vec<&str> = a.lines().map(|l| l.split(' ').next().unwrap()).collect();
    assert_eq!(stamps, vec!["t0", "t3", "t6", "t9", "t12", "t15", "t18", "t21"]);
}

#[test]
fn count_is_rows_not_lines() {
    let t = vec![
        strings(&HEADER),
        conn_row("A", "T1", "SEND", "l1\nl2\r\nl3\n"),
        conn_row("B", "T2", "RECV", "x"),
        conn_row("A", "T3", "RECV", ""),
    ];
    for w in 1..5 {
        let logs = logs_of(&convert(&t, w).logs);
        assert_eq!(logs[1].0, "A");
        assert_eq!(logs[1].1, 2);
        assert_eq!(logs[1].2, "T1 SEND      l1\nT1 SEND      l2\nT1 SEND      l3\n");
        assert_eq!(logs[2].0, "B");
        assert_eq!(logs[2].1, 1);
        assert_eq!(logs[0].1, 0);
        assert_eq!(logs[0].2, "");
    }
}

#[test]
fn multi_line_message_splits_into_lines() {
    let mut out = String::from(">");
    push_connection_lines(&mut out, "TS", "EVENT", "one\ntwo\nthree");
    assert_eq!(out, ">TS EVENT     one\nTS EVENT     two\nTS EVENT     three\n");
    let split = |s: &str| message_lines_of(s).iter().map(|x| x.to_string()).collect::<Vec<_>>();
    assert_eq!(split(""), Vec::<String>::new());
    assert_eq!(split("a\n"), vec!["a"]);
    assert_eq!(split("a\n\nb"), vec!["a", "", "b"]);
    assert_eq!(split("a\r\nb\r"), vec!["a", "b\r"]);
    assert_eq!(split("\n"), vec![""]);
}

#[test]
fn cesium_rows_share_the_sequence_log() {
    let t = vec![
        strings(&HEADER),
        row("cesium-service", "", "", "T1", "", "7", "C", "p|q|r", "DEBUG", "ignored", "resp"),
        row("cesium-service", "", "", "T2", "mod", "12345", "C", "plain", "WARNINGLEVEL", "", "r2"),
        row("seqlog", "", "", "T3", "m", "1", "k", "s|", "I", "body", ""),
    ];
    let logs = logs_of(&convert(&t, 2).logs);
    assert_eq!(logs.len(), 1);
    assert_eq!(logs[0].1, 3);
    assert_eq!(
        logs[0].2,
        "T1 cesiumlib                line:7    C r DEBUG   : resp\n\
         T2 mod                      line:12345 C plain WARNINGLEVEL: r2\n\
         T3 m                        line:1    k  I       : body\n"
    );
}

#[test]
fn short_and_unknown_rows_are_skipped() {
    let t = vec![
        strings(&HEADER),
        strings(&["connection", "SEND", "A"]),
        row("other", "x", "y", "T", "", "", "", "", "", "m", ""),
        conn_row("A", "T9", "SEND", "kept"),
    ];
    let logs = logs_of(&convert(&t, 3).logs);
    assert_eq!(logs.len(), 2);
    assert_eq!(logs[1], ("A".to_string(), 1, "T9 SEND      kept\n".to_string()));
}

#[test]
fn header_resolves_by_name() {
    let mut h: Vec<String> = strings(&HEADER);
    h.reverse();
    h.insert(0, "extra".to_string());
    let idx = resolve_header(&h).ok().unwrap();
    assert_eq!(idx.event_category, 11);
    assert_eq!(idx.response, 1);
    assert_eq!(idx.timestamp, 8);
    let t = vec![h.clone(), {
        let mut r = conn_row("A", "T1", "SEND", "x");
        r.reverse();
        r.insert(0, "e".to_string());
        r
    }];
    let logs = logs_of(&convert(&t, 2).logs);
    assert_eq!(logs[1], ("A".to_string(), 1, "T1 SEND      x\n".to_string()));
}

#[test]
fn missing_column_is_named() {
    for (k, col) in HEADER.iter().enumerate() {
        let h: Vec<String> = HEADER.iter().enumerate().filter(|(j, _)| *j != k).map(|(_, s)| s.to_string()).collect();
        let e = resolve_header(&h).err().unwrap();
        assert_eq!(e.name(), *col);
        let t = vec![h, conn_row("A", "T", "E", "m")];
        assert!(matches!(convert_table(&t, 2), Err(c) if c.name() == *col));
    }
    let h = strings(&["timestamp", "connection_name"]);
    assert_eq!(resolve_header(&h).err().unwrap(), Column::EventCategory);
    assert!(matches!(convert_table(&vec![], 2), Err(Column::EventCategory)));
}

#[test]
fn csv_text_is_converted() {
    let text = format!(
        "{}\nseqlog,,,T1,M,10,C,a|b,INFO,hello,\nconnection,SEND,A,T2,,,,,,\"ping\nagain\",\nconnection,RECV,A,T3,,,,,,pong,\n",
        HEADER.join(",")
    );
    let c = match convert_csv(text.as_bytes(), 3) {
        Ok(c) => c,
        Err(_) => panic!("conversion failed"),
    };
    let logs = logs_of(&c.logs);
    assert_eq!(logs[0].2, "T1 M                        line:10   C b INFO    : hello\n");
    assert_eq!(logs[1], ("A".to_string(), 2, "T2 SEND      ping\nT2 SEND      again\nT3 RECV      pong\n".to_string()));
}

#[test]
fn csv_missing_column_gives_no_logs() {
    let text = "event_category,event_type,connection_name,timestamp\nconnection,SEND,A,T1\n";
    assert!(matches!(convert_csv(text.as_bytes(), 2), Err(ConvertError::MissingColumn(Column::ModuleName))));
    assert!(matches!(convert_csv(b"a,b\n\xff\xfe,c\n", 2), Err(ConvertError::Csv(_))));
}

#[test]
fn formatting_helpers() {
    let mut s = String::new();
    push_padded(&mut s, "ab", 5);
    assert_eq!(s, "ab   ");
    push_padded(&mut s, "toolong", 3);
    assert_eq!(s, "ab   toolong");
    let mut u = String::new();
    push_padded(&mut u, "é", 3);
    assert_eq!(u, "é  ");
    assert_eq!(last_segment_of("a|b|c"), "c");
    assert_eq!(last_segment_of("abc"), "abc");
    assert_eq!(last_segment_of("a|"), "");
    assert_eq!(last_segment_of(""), "");
    let mut l = String::new();
    push_sequence_line(&mut l, "T", "mod", "7", "cell", "x|y", "ERR", "body");
    assert_eq!(l, "T mod                      line:7    cell y ERR     : body\n");
    assert_eq!(classify_category("seqlog"), Category::SeqLog);
    assert_eq!(classify_category("cesium-service"), Category::CesiumService);
    assert_eq!(classify_category("connection"), Category::Connection);
    assert_eq!(classify_category("Connection"), Category::Other);
}

#[test]
fn output_paths() {
    assert_eq!(output_path("logs/run.csv", "sequence"), "logs/run-sequence.log");
    assert_eq!(output_path("run.csv", "A"), "run-A.log");
    assert_eq!(output_path("a.b/run", "A"), "a.b/run-A.log");
    assert_eq!(output_path("x.tar.csv", "B"), "x.tar-B.log");
}

#[test]
fn one_worker_share() {
    let t = example_table();
    let set = classify_range(&t, &resolve_header(&t[0]).ok().unwrap(), 2, 4);
    let logs = logs_of(&set);
    assert_eq!(logs[0], ("sequence".to_string(), 0, String::new()));
    assert_eq!(logs[1].1, 2);
    let mut merged = LogSet::new();
    merged.merge_from(&classify_range(&t, &resolve_header(&t[0]).ok().unwrap(), 1, 2));
    merged.merge_from(&set);
    assert_eq!(logs_of(&merged), logs_of(&convert(&t, 1).logs));
    assert_eq!(merged.find("A"), Some(1));
    assert_eq!(merged.find("B"), None);
}

#[test]
fn shares_merge_in_worker_order_whatever_order_they_finish() {
    let mut t = vec![strings(&HEADER)];
    for k in 0..17 {
        t.push(conn_row(if k % 2 == 0 { "A" } else { "B" }, &format!("t{k}"), "E", &format!("m{k}")));
    }
    let h = resolve_header(&t[0]).ok().unwrap();
    let ranges = worker_ranges(t.len() - 1, 4);
    assert_eq!(ranges.len(), 4);
    assert_eq!(ranges.iter().map(|r| (r.start, r.end, r.worker_ordinal)).collect::<Vec<_>>(),
               vec![(1, 5, 1), (5, 9, 2), (9, 13, 3), (13, 18, 4)]);
    let mut shares: Vec<Option<LogSet>> = (0..4).map(|_| None).collect();
    for i in (0..4).rev() {
        shares[i] = Some(classify_range(&t, &h, ranges[i].start, ranges[i].end));
    }
    let shares: Vec<LogSet> = shares.into_iter().map(|s| s.unwrap()).collect();
    let merged = merge_shares(&t, &h, &shares);
    assert_eq!(logs_of(&merged), logs_of(&convert(&t, 1).logs));
    let a = &logs_of(&merged)[1];
    assert_eq!(a.0, "A");
    assert_eq!(a.1, 9);
    assert!(a.2.starts_with("t0 E         m0\nt2 E         m2\n"));
}
