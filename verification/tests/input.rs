use camps_and_trees::board::Board;
use camps_and_trees::input::{analyze_stdin, read_camps};

#[test]
fn analyze_stdin_too_little_input() {
    assert!(analyze_stdin(vec![]).is_err());
    assert!(analyze_stdin(vec!["0".to_string(), "0".to_string()]).is_err());
}

#[test]
fn analyze_stdin_2x2() {
    assert_eq!(
        analyze_stdin(vec![
            "1, 0".to_string(),
            "1, 0".to_string(),
            " T".to_string(),
            "  ".to_string()
        ]),
        Ok(Board::new_parse(vec![1, 0], vec![1, 0], " T\n  ").unwrap())
    );
}

#[test]
fn read_camps_empty() {
    assert!(read_camps("").is_err());
}

#[test]
fn read_camps_one_element() {
    assert_eq!(read_camps("1"), Ok(vec![1]));
}

#[test]
fn read_camps_three_elements() {
    assert_eq!(read_camps("1, 2, 3"), Ok(vec![1, 2, 3]));
}

#[test]
fn read_camps_error_texts() {
    assert_eq!(
        read_camps(""),
        Err("Row or column descriptors must not be empty".to_string())
    );
    assert_eq!(
        read_camps("1,,2"),
        Err("cannot parse integer from empty string".to_string())
    );
    assert_eq!(
        read_camps(" "),
        Err("cannot parse integer from empty string".to_string())
    );
    assert_eq!(
        read_camps("1, x"),
        Err("invalid digit found in string".to_string())
    );
    assert_eq!(
        read_camps("-1"),
        Err("invalid digit found in string".to_string())
    );
    assert_eq!(
        read_camps("+"),
        Err("invalid digit found in string".to_string())
    );
    assert_eq!(
        read_camps("1 2"),
        Err("invalid digit found in string".to_string())
    );
    assert_eq!(
        read_camps("340282366920938463463374607431768211456"),
        Err("number too large to fit in target type".to_string())
    );
    assert_eq!(
        read_camps("99999999999999999999999999999999999999999x, y"),
        Err("number too large to fit in target type".to_string())
    );
    assert_eq!(
        read_camps("2, 9x99999999999999999999999999999999999999999"),
        Err("invalid digit found in string".to_string())
    );
}

#[test]
fn read_camps_signs_blanks_and_limits() {
    assert_eq!(read_camps("+5"), Ok(vec![5]));
    assert_eq!(read_camps("007"), Ok(vec![7]));
    assert_eq!(read_camps("\t 4 \r\n,\u{a0}5\u{3000}"), Ok(vec![4, 5]));
    assert_eq!(read_camps("0,0,0"), Ok(vec![0, 0, 0]));
    assert_eq!(read_camps(&usize::MAX.to_string()), Ok(vec![usize::MAX]));
    assert_eq!(read_camps("120, 3405"), Ok(vec![120, 3405]));
}

#[test]
fn read_camps_agrees_with_the_standard_parser() {
    let samples = [
        "1", "1,2", " 1 , 2 ", "", ",", "1,", ",1", "+1", "++1", "-0", "+", "-", " + ", "1 1",
        "18446744073709551615", "18446744073709551616", "4294967295", "4294967296", "0x10",
        "१", "1\u{2003}", "\u{2028}3", "3\u{200b}", "12a", "a12", "1_000", "00000000000000000000001",
        "9999999999999999999, 1", "1, 99999999999999999999", "x, 99999999999999999999",
    ];
    for sample in samples {
        let expected: Result<Vec<usize>, String> = if sample.is_empty() {
            Err("Row or column descriptors must not be empty".to_string())
        } else {
            let mut values = Vec::new();
            let mut fault = None;
            for part in sample.split(',') {
                match part.trim().parse::<usize>() {
                    Ok(value) => values.push(value),
                    Err(e) => {
                        fault = Some(e.to_string());
                        break;
                    }
                }
            }
            match fault {
                Some(e) => Err(e),
                None => Ok(values),
            }
        };
        assert_eq!(read_camps(sample), expected);
    }
}

#[test]
fn analyze_stdin_error_texts() {
    assert_eq!(
        analyze_stdin(vec!["0".to_string(), "0".to_string()]),
        Err("Too few lines.  There must be at least 3.".to_string())
    );
    assert_eq!(
        analyze_stdin(vec!["".to_string(), "x".to_string(), "?".to_string()]),
        Err("Row or column descriptors must not be empty".to_string())
    );
    assert_eq!(
        analyze_stdin(vec!["1".to_string(), "x".to_string(), "?".to_string()]),
        Err("invalid digit found in string".to_string())
    );
    assert_eq!(
        analyze_stdin(vec!["1".to_string(), "1".to_string(), "?".to_string()]),
        Err("Couldn't parse tile: '?'".to_string())
    );
    assert_eq!(
        analyze_stdin(vec!["1".to_string(), "1".to_string(), "TT".to_string()]),
        Err("Grid size doesn't match the row and column descriptors".to_string())
    );
}

#[test]
fn analyze_stdin_joins_the_table_lines() {
    let board = analyze_stdin(vec![
        "1,0,1".to_string(),
        "2, 0".to_string(),
        " T".to_string(),
        "--".to_string(),
        "C ".to_string(),
    ])
    .unwrap();
    assert_eq!(board.rows, vec![1, 0, 1]);
    assert_eq!(board.columns, vec![2, 0]);
    assert_eq!(board.debug(), " T\n--\nC ");
    let single = analyze_stdin(vec!["0".to_string(), "0".to_string(), "T".to_string()]).unwrap();
    assert_eq!(single.debug(), "T");
}
