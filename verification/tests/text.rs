use hashcode2020::input::{lines, number, read_task, row, triple, words, NumberFault, ParseError};
use hashcode2020::output::push_decimal;
use hashcode2020::planner::ScanningPlan;
use hashcode2020::ScanningTask;

const EXAMPLE: &str = "6 2 7\n1 2 3 6 5 4\n5 2 2\n0 1 2 3 4\n4 3 1\n3 2 5 0\n";

fn catalog(task: &ScanningTask, library: usize) -> Vec<(u32, u64)> {
    task.libraries[library]
        .books
        .iter()
        .map(|book| (book.id(), book.score()))
        .collect()
}

fn fault(text: &str) -> ParseError {
    match read_task(text.as_bytes()) {
        Ok(_) => panic!("the text was read as a task"),
        Err(e) => e,
    }
}

#[test]
fn text_is_split_into_lines() {
    assert_eq!(lines(b""), Vec::<Vec<u8>>::new());
    assert_eq!(lines(b"a"), vec![b"a".to_vec()]);
    assert_eq!(lines(b"a\n"), vec![b"a".to_vec()]);
    assert_eq!(lines(b"a\n\n"), vec![b"a".to_vec(), b"".to_vec()]);
    assert_eq!(lines(b"\na b\n c"), vec![b"".to_vec(), b"a b".to_vec(), b" c".to_vec()]);
    assert_eq!(lines(b"1 2\r\n3\r\n"), vec![b"1 2\r".to_vec(), b"3\r".to_vec()]);
}

#[test]
fn line_is_split_into_words() {
    assert_eq!(words(b""), Vec::<Vec<u8>>::new());
    assert_eq!(words(b" \t \r"), Vec::<Vec<u8>>::new());
    assert_eq!(words(b"12"), vec![b"12".to_vec()]);
    assert_eq!(
        words(b"  1\t22 \x0b\x0c 333\r"),
        vec![b"1".to_vec(), b"22".to_vec(), b"333".to_vec()]
    );
    assert_eq!(words(b"a\xc2\xa0b c"), vec![b"a\xc2\xa0b".to_vec(), b"c".to_vec()]);
}

#[test]
fn words_are_read_as_numbers() {
    assert_eq!(number(b"0"), Ok(0));
    assert_eq!(number(b"007"), Ok(7));
    assert_eq!(number(b"+42"), Ok(42));
    assert_eq!(number(b"4294967295"), Ok(u32::MAX));
    assert_eq!(number(b"0004294967295"), Ok(u32::MAX));
    assert_eq!(number(b"4294967296"), Err(NumberFault::TooLarge));
    assert_eq!(number(b"99999999999999999999999999"), Err(NumberFault::TooLarge));
    assert_eq!(number(b""), Err(NumberFault::InvalidDigit));
    assert_eq!(number(b"+"), Err(NumberFault::InvalidDigit));
    assert_eq!(number(b"-5"), Err(NumberFault::InvalidDigit));
    assert_eq!(number(b"++5"), Err(NumberFault::InvalidDigit));
    assert_eq!(number(b"12a"), Err(NumberFault::InvalidDigit));
    assert_eq!(number(b"1.5"), Err(NumberFault::InvalidDigit));
    // what comes first counts
    assert_eq!(number(b"99999999999a"), Err(NumberFault::TooLarge));
    assert_eq!(number(b"9a9999999999"), Err(NumberFault::InvalidDigit));
}

#[test]
fn lines_are_read_as_rows_of_numbers() {
    let text = lines(b"1 2 3\n\n4 x 5 y\n7 8\n");
    assert_eq!(row(&text, 0), Ok(vec![1, 2, 3]));
    assert_eq!(row(&text, 1), Ok(vec![]));
    assert_eq!(
        row(&text, 2),
        Err(ParseError::InvalidNumber { line: 2, word: 1, fault: NumberFault::InvalidDigit })
    );
    assert_eq!(row(&text, 3), Ok(vec![7, 8]));
    assert_eq!(row(&text, 4), Err(ParseError::Incomplete));
    assert_eq!(triple(&text, 0), Ok((1, 2, 3)));
    assert_eq!(triple(&text, 1), Err(ParseError::InvalidFormat { line: 1 }));
    assert_eq!(triple(&text, 3), Err(ParseError::InvalidFormat { line: 3 }));
    assert_eq!(triple(&text, 9), Err(ParseError::Incomplete));
}

#[test]
fn task_is_read_from_text() {
    let task = read_task(EXAMPLE.as_bytes()).unwrap();
    assert!(task.is_well_formed());
    assert_eq!(task.days, 7);
    let scores: Vec<(u32, u64)> = task.books.iter().map(|b| (b.id(), b.score())).collect();
    assert_eq!(scores, vec![(0, 1), (1, 2), (2, 3), (3, 6), (4, 5), (5, 4)]);
    assert_eq!(task.libraries.len(), 2);
    assert_eq!(task.libraries[0].id, 0);
    assert_eq!(task.libraries[0].signup_days, 2);
    assert_eq!(task.libraries[0].scan_rate, 2);
    assert_eq!(catalog(&task, 0), vec![(0, 1), (1, 2), (2, 3), (3, 6), (4, 5)]);
    assert_eq!(task.libraries[1].id, 1);
    assert_eq!(task.libraries[1].signup_days, 3);
    assert_eq!(task.libraries[1].scan_rate, 1);
    assert_eq!(catalog(&task, 1), vec![(0, 1), (2, 3), (3, 6), (5, 4)]);
}

#[test]
fn task_is_read_from_a_string() {
    let task: ScanningTask = EXAMPLE.parse().unwrap();
    assert_eq!(task.days, 7);
    assert_eq!(task.books.len(), 6);
    assert_eq!(task.libraries.len(), 2);
    assert_eq!("1 1".parse::<ScanningTask>().err(), Some(ParseError::InvalidFormat { line: 0 }));
}

#[test]
fn counts_in_the_text_are_not_binding() {
    // neither the number of books nor the number of a library's books is
    // held against what is listed; lines after the last library are not read
    let task = read_task(b"99 1 5\r\n4 4\r\n7 1 2\r\n 1\t0  1 \r\nwhat follows is not read").unwrap();
    assert_eq!(task.books.len(), 2);
    assert_eq!(task.libraries.len(), 1);
    assert_eq!(catalog(&task, 0), vec![(0, 4), (1, 4)]);
    let task = read_task(b"0 0 5\n\n").unwrap();
    assert_eq!((task.days, task.books.len(), task.libraries.len()), (5, 0, 0));
    let task = read_task(b"1 1 1\n+3\n0 0 0\n\n").unwrap();
    assert_eq!(catalog(&task, 0), vec![]);
}

#[test]
fn text_that_is_no_task_is_refused() {
    assert_eq!(fault(""), ParseError::Incomplete);
    assert_eq!(fault("1 1 1"), ParseError::Incomplete);
    assert_eq!(fault("1 1 1\n10\n"), ParseError::Incomplete);
    assert_eq!(fault("1 1 1\n10\n1 0 1\n"), ParseError::Incomplete);
    assert_eq!(fault("1 2 1\n10\n1 0 1\n0\n"), ParseError::Incomplete);
    assert_eq!(fault("1 1\n10\n"), ParseError::InvalidFormat { line: 0 });
    assert_eq!(fault("\n1 1 1\n"), ParseError::InvalidFormat { line: 0 });
    assert_eq!(fault("1 1 1\n10\n1 0\n0\n"), ParseError::InvalidFormat { line: 2 });
    assert_eq!(fault("1 2 1\n10\n1 0 1\n0\n1 0 1 1\n0\n"), ParseError::InvalidFormat { line: 4 });
    assert_eq!(
        fault("1 1 x\n"),
        ParseError::InvalidNumber { line: 0, word: 2, fault: NumberFault::InvalidDigit }
    );
    assert_eq!(
        fault("1 1 1\n10 4294967296\n"),
        ParseError::InvalidNumber { line: 1, word: 1, fault: NumberFault::TooLarge }
    );
    assert_eq!(
        fault("1 1 1\n10\n1 0 1\n0 -1\n"),
        ParseError::InvalidNumber { line: 3, word: 1, fault: NumberFault::InvalidDigit }
    );
    assert_eq!(
        fault("2 1 1\n10 20\n1 0 1\n1 2 0 3\n"),
        ParseError::InvalidBookId { book: 2, library: 0 }
    );
    assert_eq!(
        fault("2 2 1\n10 20\n1 0 1\n1\n1 0 1\n0 7\n"),
        ParseError::InvalidBookId { book: 7, library: 1 }
    );
    // the first fault counts
    assert_eq!(
        fault("2 2 1\n10 20\n1 0 1\n5\n1 0\n"),
        ParseError::InvalidBookId { book: 5, library: 0 }
    );
}

#[test]
fn numbers_are_written_in_base_ten() {
    let mut text = b"n=".to_vec();
    push_decimal(&mut text, 0);
    text.push(b' ');
    push_decimal(&mut text, 7);
    text.push(b' ');
    push_decimal(&mut text, 1203);
    text.push(b' ');
    push_decimal(&mut text, u64::MAX);
    assert_eq!(text, b"n=0 7 1203 18446744073709551615".to_vec());
}

#[test]
fn plan_is_written_as_text() {
    let task = read_task(EXAMPLE.as_bytes()).unwrap();
    let plan = ScanningPlan::new(&task);
    assert_eq!(plan.render(), b"0\n".to_vec());

    let mut plan = ScanningPlan::new(&task);
    plan.add_library(1, vec![5, 2, 3]);
    plan.add_library(0, vec![0, 1, 10, 4]);
    assert_eq!(plan.render(), b"2\n1 3\n5 2 3\n0 4\n0 1 10 4\n".to_vec());

    let mut plan = ScanningPlan::new(&task);
    plan.add_library(3, vec![]);
    plan.add_library(12, vec![4294967295]);
    assert_eq!(plan.render(), b"2\n3 0\n\n12 1\n4294967295\n".to_vec());
}

#[test]
fn what_is_written_is_read_back() {
    for n in [0u32, 1, 9, 10, 99, 100, 12345, 4294967295] {
        let mut text = Vec::new();
        push_decimal(&mut text, u64::from(n));
        assert_eq!(number(&text), Ok(n));
    }
}
