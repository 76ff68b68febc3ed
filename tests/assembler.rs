use gps_telemetry::assembler::NmeaAssembler;

fn feed(machine: &mut NmeaAssembler, bytes: &[u8]) -> Vec<(usize, String)> {
    let mut done = Vec::new();
    for (i, b) in bytes.iter().enumerate() {
        if let Some(s) = machine.push_byte(*b) {
            done.push((i, s.as_str().to_string()));
        }
    }
    done
}

#[test]
fn single_sentence_completes_once_at_line_feed() {
    let mut machine = NmeaAssembler::new();
    let input = b"xx\n\r$GNGGA,1,2*00\r\nyy\n";
    let done = feed(&mut machine, input);
    assert_eq!(done.len(), 1);
    assert_eq!(done[0].0, 18);
    assert_eq!(done[0].1, "$GNGGA,1,2*00");
}

#[test]
fn bytes_before_a_start_are_ignored() {
    let mut machine = NmeaAssembler::new();
    assert!(feed(&mut machine, b"abc\n\r\n").is_empty());
}

#[test]
fn dollar_restarts_the_sentence() {
    let mut machine = NmeaAssembler::new();
    let done = feed(&mut machine, b"$GNGGA,partial$GNZDA,1*4B\r\n");
    assert_eq!(done.len(), 1);
    assert_eq!(done[0].1, "$GNZDA,1*4B");
}

#[test]
fn carriage_return_is_ignored_inside_a_sentence() {
    let mut machine = NmeaAssembler::new();
    let done = feed(&mut machine, b"$AB\rCD\n");
    assert_eq!(done[0].1, "$ABCD");
}

#[test]
fn overlong_sentence_is_truncated_to_82_bytes() {
    let mut machine = NmeaAssembler::new();
    let mut input = vec![b'$'];
    input.extend(std::iter::repeat(b'A').take(100));
    input.push(b'\n');
    let done = feed(&mut machine, &input);
    assert_eq!(done.len(), 1);
    assert_eq!(done[0].1.len(), 82);
    assert!(done[0].1[1..].bytes().all(|b| b == b'A'));
}

#[test]
fn two_sentences_in_a_row() {
    let mut machine = NmeaAssembler::new();
    let done = feed(&mut machine, b"$A*1\r\n$B*2\r\n");
    assert_eq!(done.len(), 2);
    assert_eq!(done[0].1, "$A*1");
    assert_eq!(done[1].1, "$B*2");
}

#[test]
fn high_bytes_become_two_byte_characters() {
    let mut machine = NmeaAssembler::new();
    let done = feed(&mut machine, &[b'$', 0xE9, b'\n']);
    assert_eq!(done[0].1, "$\u{e9}");
}
