use csv_guillotine::{
    fill, is_nl, pick_header, prepare_fill, read_all, score_lines, select_header, str_to_vec,
    Blade, ByteSource,
    FakeCsvReader,
};

fn trim_all(input: &str, delimiter: u8, consider: usize) -> String {
    let mut blade = Blade::new(FakeCsvReader::new(input.to_string()), delimiter, consider);
    String::from_utf8(read_all(&mut blade).unwrap()).unwrap()
}

fn scenario_lines() -> Vec<String> {
    vec![
        "junk one".to_string(),
        "junk two".to_string(),
        "name,age,gender".to_string(),
        "bob,22,M".to_string(),
        "jane,21,F".to_string(),
    ]
}

#[test]
fn junk_lines_before_header_are_dropped() {
    let lines = scenario_lines();
    assert_eq!(trim_all(&lines.join("\n"), b',', 20), lines[2..].join("\n"));
}

#[test]
fn window_of_two_keeps_whole_input() {
    let lines = scenario_lines();
    let input = lines.join("\n");
    assert_eq!(trim_all(&input, b',', 2), input);
}

#[test]
fn quoted_delimiter_does_not_add_a_field() {
    let counts = score_lines(&vec![str_to_vec("\"a,b\",c,d\n".to_string())], b',');
    assert_eq!(counts, vec![3]);
}

#[test]
fn input_without_terminator_passes_through() {
    assert_eq!(trim_all("no newline here", b',', 20), "no newline here");
}

#[test]
fn empty_input_gives_no_output() {
    assert_eq!(trim_all("", b',', 20), "");
    let mut blade = Blade::new(FakeCsvReader::new(String::new()), b',', 20);
    let mut buf = [0u8; 16];
    assert_eq!(blade.read(&mut buf).unwrap(), 0);
    assert_eq!(blade.read(&mut buf).unwrap(), 0);
}

#[test]
fn short_reads_lose_and_repeat_nothing() {
    let input = "meta: x\r\nmore meta\r\na;b;c\r\n1;2;3\r\n4;5;6";
    let source = FakeCsvReader::new_by_size(input.to_string(), 3);
    let mut blade = Blade::new(source, b';', 20);
    let mut out: Vec<u8> = Vec::new();
    let mut buf = [0u8; 5];
    loop {
        let n = blade.read(&mut buf).unwrap();
        if n == 0 {
            break;
        }
        assert!(n <= 5);
        out.extend_from_slice(&buf[..n]);
    }
    assert_eq!(
        String::from_utf8(out).unwrap(),
        "a;b;c\r\n1;2;3\r\n4;5;6"
    );
    assert_eq!(blade.read(&mut buf).unwrap(), 0);
}

#[test]
fn header_chosen_only_among_present_lines() {
    let input = "x\nname,age\n1,2\nrest";
    assert_eq!(trim_all(input, b',', 10), "name,age\n1,2\nrest");
}

#[test]
fn tab_delimiter_is_honoured() {
    let input = "exported by tool\na\tb\tc\n1\t2\t3\n";
    assert_eq!(trim_all(input, b'\t', 20), "a\tb\tc\n1\t2\t3\n");
}

#[test]
fn earliest_of_equal_maxima_wins() {
    assert_eq!(pick_header(&vec![1, 3, 2, 3]), 1);
    assert_eq!(pick_header(&vec![2, 2, 2]), 0);
    assert_eq!(pick_header(&vec![0, 0, 0]), 0);
    assert_eq!(pick_header(&vec![0, 0, 1]), 2);
    assert_eq!(pick_header(&vec![]), 0);
}

#[test]
fn selection_repeats_on_same_window() {
    let window = vec![
        str_to_vec("banner\n".to_string()),
        str_to_vec("a,b,c\n".to_string()),
        str_to_vec("1,2,3\n".to_string()),
    ];
    let first = select_header(&window, b',');
    let second = select_header(&window, b',');
    assert_eq!(first, 1);
    assert_eq!(first, second);
}

#[test]
fn field_counts_follow_the_delimiter() {
    let lines = vec![
        str_to_vec("a,b,c\n".to_string()),
        str_to_vec("a;b\n".to_string()),
        str_to_vec("plain\n".to_string()),
    ];
    assert_eq!(score_lines(&lines, b','), vec![3, 1, 1]);
    assert_eq!(score_lines(&lines, b';'), vec![1, 2, 1]);
}

#[test]
fn crlf_lines_are_kept_whole() {
    let input = "junk\r\nh1,h2\r\nv1,v2\r\n";
    assert_eq!(trim_all(input, b',', 20), "h1,h2\r\nv1,v2\r\n");
}

#[test]
fn terminator_bytes_are_recognised() {
    assert!(is_nl(10));
    assert!(is_nl(13));
    assert!(!is_nl(b'a'));
    assert!(!is_nl(0));
}

#[test]
fn zero_length_destination_reads_nothing() {
    let mut blade = Blade::new(FakeCsvReader::new("a,b\n1,2\n".to_string()), b',', 20);
    let mut empty: [u8; 0] = [];
    assert_eq!(blade.read(&mut empty).unwrap(), 0);
    let rest = String::from_utf8(read_all(&mut blade).unwrap()).unwrap();
    assert_eq!(rest, "a,b\n1,2\n");
}

#[test]
fn draining_reads_take_at_most_the_front_line() {
    let mut blade = Blade::new(FakeCsvReader::new("x\na,b\n1,2\n".to_string()), b',', 20);
    let mut buf = [9u8; 4];
    assert_eq!(blade.read(&mut buf).unwrap(), 4);
    assert_eq!(buf, *b"a,b\n");
    let mut small = [7u8; 2];
    assert_eq!(blade.read(&mut small).unwrap(), 2);
    assert_eq!(small, *b"1,");
    let mut wide = [7u8; 8];
    assert_eq!(blade.read(&mut wide).unwrap(), 2);
    assert_eq!(wide, [b'2', b'\n', 7, 7, 7, 7, 7, 7]);
    assert_eq!(blade.read(&mut wide).unwrap(), 0);
}

#[test]
fn bytes_past_the_count_stay_untouched() {
    let mut source = FakeCsvReader::new_by_size("abcdef".to_string(), 2);
    let mut buf = [0u8; 5];
    assert_eq!(source.read(&mut buf).unwrap(), 2);
    assert_eq!(buf, [b'a', b'b', 0, 0, 0]);
}

#[test]
fn empty_line_has_no_fields() {
    assert_eq!(score_lines(&vec![vec![]], b','), vec![0]);
}

#[test]
fn window_of_two_keeps_read_ahead_as_one_entry() {
    let lines = scenario_lines();
    let mut src = FakeCsvReader::new(lines.join("\n"));
    let mut pb: Vec<Vec<u8>> = vec![];
    let mut un: Vec<Vec<u8>> = vec![];
    prepare_fill(2, &mut src, &mut pb, &mut un).unwrap();
    assert_eq!(pb, vec![b"junk one\n".to_vec(), b"junk two\n".to_vec()]);
    assert_eq!(un, vec![b"name,age,gender\nbob,22,M\njane,21,F".to_vec()]);
    assert_eq!(read_all(&mut src).unwrap(), Vec::<u8>::new());
}

#[test]
fn fill_stops_at_the_chunk_completing_a_line() {
    let mut src = FakeCsvReader::new("ab\ncd\nef".to_string());
    let mut v: Vec<u8> = vec![];
    fill(&mut src, &mut v, 4).unwrap();
    assert_eq!(v, b"ab\nc".to_vec());
    assert_eq!(read_all(&mut src).unwrap(), b"d\nef".to_vec());
}

#[test]
fn fill_reads_nothing_when_a_line_is_complete() {
    let mut src = FakeCsvReader::new("more".to_string());
    let mut v: Vec<u8> = b"x\ny".to_vec();
    fill(&mut src, &mut v, 4).unwrap();
    assert_eq!(v, b"x\ny".to_vec());
    assert_eq!(read_all(&mut src).unwrap(), b"more".to_vec());
}
