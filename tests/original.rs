use csv_guillotine::{
    fill, get_line, has_nl, prepare_fill, read_all, read_from_buffer, score_lines, str_to_vec,
    Blade, FakeCsvReader,
};

type Buffer = Vec<Vec<u8>>;

#[test]
fn fake_reader_works() {
    let mut fr = FakeCsvReader::new("hi there".to_string());
    let buffer = String::from_utf8(read_all(&mut fr).unwrap()).unwrap();
    assert_eq!(buffer, "hi there".to_string());
}

#[test]
fn test_has_nl() {
    assert_eq!(has_nl(&str_to_vec("hi there\r\n".to_string())), true);
    assert_eq!(has_nl(&str_to_vec("hi there\nbob".to_string())), true);
    assert_eq!(has_nl(&str_to_vec("hi there\r".to_string())), false);
    assert_eq!(has_nl(&str_to_vec("hi there\n".to_string())), false);
    assert_eq!(has_nl(&str_to_vec("hi there".to_string())), false);
}

#[test]
fn test_fill() {
    let csv = vec![
        "full of trash".to_string(),
        "but before the real data".to_string(),
        "a".to_string(),
    ];
    let mut fr = FakeCsvReader::new(csv.join("\n"));
    let mut unprocessed = "This is a header ".to_string().as_bytes().to_vec();
    fill(&mut fr, &mut unprocessed, 8).unwrap();
    let fr_buffer = String::from_utf8(read_all(&mut fr).unwrap()).unwrap();
    assert_eq!(fr_buffer, "t before the real data\na");
    assert_eq!(
        unprocessed,
        "This is a header full of trash\nbu".to_string().as_bytes()
    );
}

#[test]
fn test_get_line() {
    let mut unp1 = str_to_vec("hi there\r\n".to_string());
    let r1 = get_line(&mut unp1);
    assert_eq!(r1, str_to_vec("hi there\r\n".to_string()));
    assert_eq!(unp1, str_to_vec("".to_string()));

    let mut unp2 = str_to_vec("hi there\nhow are you bob?".to_string());
    let r2 = get_line(&mut unp2);
    assert_eq!(r2, str_to_vec("hi there\n".to_string()));
    assert_eq!(unp2, str_to_vec("how are you bob?".to_string()));

    let mut unp3 = str_to_vec("\rhi there".to_string());
    let r3 = get_line(&mut unp3);
    assert_eq!(r3, str_to_vec("\r".to_string()));
    assert_eq!(unp3, str_to_vec("hi there".to_string()));

    let mut unp3 = str_to_vec("hi there".to_string());
    let r3 = get_line(&mut unp3);
    assert_eq!(r3, str_to_vec("".to_string()));
    assert_eq!(unp3, str_to_vec("hi there".to_string()));

    let mut unp4 = str_to_vec("".to_string());
    let r4 = get_line(&mut unp4);
    assert_eq!(r4, str_to_vec("".to_string()));
    assert_eq!(unp4, str_to_vec("".to_string()));
}

#[test]
fn test_count_seperators() {
    assert_eq!(
        score_lines(&vec![str_to_vec("This,has,4,fields".to_string())], 44),
        vec![4]
    );
}

#[test]
fn test_read_from_buffer_empty() {
    let mut return_buffer = [0; 4];
    let mut src_buffer: Buffer = vec![vec![]];
    let expected: Buffer = vec![];
    assert_eq!(
        read_from_buffer(&mut src_buffer, &mut return_buffer).unwrap_or_default(),
        0
    );
    assert_eq!(return_buffer, [0; 4]);
    assert_eq!(src_buffer, expected);
}

#[test]
fn test_read_from_buffer_full_line() {
    let mut return_buffer = [0; 4];
    let mut src_buffer = vec![vec![1, 2, 3, 4], vec![5, 6, 7, 8], vec![9]];
    assert_eq!(
        read_from_buffer(&mut src_buffer, &mut return_buffer).unwrap_or_default(),
        4
    );
    assert_eq!(return_buffer, [1, 2, 3, 4]);
    assert_eq!(src_buffer, vec![vec![5, 6, 7, 8], vec![9]]);
}

#[test]
fn test_read_from_buffer_partial_line() {
    let mut return_buffer = [0; 8];
    let mut src_buffer = vec![vec![1, 2, 3, 4, 5, 6, 7, 8, 9, 10, 11, 12, 13, 14]];
    assert_eq!(
        read_from_buffer(&mut src_buffer, &mut return_buffer).unwrap_or_default(),
        8
    );
    assert_eq!(return_buffer, [1, 2, 3, 4, 5, 6, 7, 8]);
    assert_eq!(src_buffer, vec![vec![9, 10, 11, 12, 13, 14]]);
}

#[test]
fn test_prepare_fill_needs_multiple_reads() {
    let csv = vec![
        "01234".to_string(),
        "56789".to_string(),
        "abcde".to_string(),
        "defgh".to_string(),
    ];
    let mut b = FakeCsvReader::new_by_size(csv.join("\n"), 7);

    let mut return_buffer: Buffer = vec![];
    let mut unprocessed: Buffer = vec![];
    assert_eq!(
        prepare_fill(2, &mut b, &mut return_buffer, &mut unprocessed).unwrap(),
        ()
    );

    let expected: Buffer = vec![
        vec![48, 49, 50, 51, 52, 10],
        vec![53, 54, 55, 56, 57, 10],
    ];
    assert_eq!(return_buffer, expected);
    assert_eq!(unprocessed, vec![vec![97, 98]]);
}

#[test]
fn it_skips_header() {
    let csv = vec![
        "This is a header".to_string(),
        "Full of nonsense, rubbish and problems".to_string(),
        "but before the real data".to_string(),
        "name,age,gender".to_string(),
        "bob,22,M".to_string(),
        "jane,21,F".to_string(),
        "freddy,19,M".to_string(),
    ];
    let fr = FakeCsvReader::new(csv.join("\n"));
    let mut rf = Blade::new(fr, 44, 20);
    let buffer = String::from_utf8(read_all(&mut rf).unwrap()).unwrap();
    assert_eq!(buffer, csv[3..].join("\n"));
}

#[test]
fn it_only_considers_upto_considers() {
    let csv = vec![
        "This is a header".to_string(),
        "Full of nonsense, rubbish and problems".to_string(),
        "but before the real data".to_string(),
        "name,age,gender".to_string(),
        "bob,22,M".to_string(),
        "jane,21,F".to_string(),
        "freddy,19,M".to_string(),
    ];
    let fr = FakeCsvReader::new(csv.join("\n"));
    let mut rf = Blade::new(fr, 44, 3);
    let buffer = String::from_utf8(read_all(&mut rf).unwrap()).unwrap();
    assert_eq!(buffer, csv[1..].join("\n"));
}
