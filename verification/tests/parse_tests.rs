use cannyls_bencher::parse::{
    delete_range, delete_with_perc, get_with_perc, newput, overwrite, parse_bytes,
    parse_bytes_with_suffix, parse_command, parse_freq, parse_freq_command, parse_line_comment,
    parse_ordered, parse_section, parse_seed, parse_unordered, parse_with_suffix, parse_workload,
    render_command, spaces_with_comments,
};
use cannyls_bencher::{Command, Section, Statement, Workload};

#[test]
fn newput_works() {
    assert_eq!(newput(b"New(12)", 0), Some((Command::NewPut(12), 7)));
    assert_eq!(newput(b"New(12K)", 0), Some((Command::NewPut(12 * 1024), 8)));
    assert_eq!(
        newput(b"New(12M)", 0),
        Some((Command::NewPut(12 * 1024 * 1024), 8))
    );
}

#[test]
fn overwrite_works() {
    assert_eq!(
        overwrite(b"OverWrite(42)", 0),
        Some((Command::Overwrite(42), 13))
    );
    assert_eq!(
        overwrite(b"OverWrite(42K)", 0),
        Some((Command::Overwrite(42 * 1024), 14))
    );
    assert_eq!(
        overwrite(b"OverWrite(42M)", 0),
        Some((Command::Overwrite(42 * 1024 * 1024), 14))
    );
}

#[test]
fn random_get_works() {
    assert_eq!(
        cannyls_bencher::parse::random_get(b"Get", 0),
        Some((Command::RandomGet, 3))
    );
}

#[test]
fn get_with_perc_works() {
    assert_eq!(
        get_with_perc(b"Get(12, 42)", 0),
        Some((Command::Get(12, 42), 11))
    );
}

#[test]
fn parse_freq_works() {
    assert_eq!(parse_freq(b"<42%>", 0), Some((42, 5)));
}

#[test]
fn delete_range_works() {
    assert_eq!(
        delete_range(b"DeleteRange(42, 84)", 0),
        Some((Command::DeleteRange(42, 84), 19))
    );
}

#[test]
fn random_delete_works() {
    assert_eq!(
        cannyls_bencher::parse::random_delete(b"Delete", 0),
        Some((Command::RandomDelete, 6))
    );
}

#[test]
fn parse_command_works() {
    assert_eq!(parse_command(b"New(42)", 0), Some((Command::NewPut(42), 7)));
    assert_eq!(
        parse_command(b"OverWrite(42)", 0),
        Some((Command::Overwrite(42), 13))
    );
    assert_eq!(parse_command(b"Get", 0), Some((Command::RandomGet, 3)));
    assert_eq!(
        parse_command(b"Get(42, 84)", 0),
        Some((Command::Get(42, 84), 11))
    );
    assert_eq!(parse_command(b"Delete", 0), Some((Command::RandomDelete, 6)));
    assert_eq!(
        parse_command(b"Delete(42, 84)", 0),
        Some((Command::Delete(42, 84), 14))
    );
    assert_eq!(
        parse_command(b"DeleteRange(42, 84)", 0),
        Some((Command::DeleteRange(42, 84), 19))
    );
}

#[test]
fn parse_freq_command_works() {
    assert_eq!(
        parse_freq_command(b"<10%> New(42);", 0),
        Some(((10, Command::NewPut(42)), 14))
    );
    assert_eq!(
        parse_freq_command(b"<11%> OverWrite(42);", 0),
        Some(((11, Command::Overwrite(42)), 20))
    );
    assert_eq!(
        parse_freq_command(b"<12%> Get;", 0),
        Some(((12, Command::RandomGet), 10))
    );
    assert_eq!(
        parse_freq_command(b"<13%> Get(42, 84);", 0),
        Some(((13, Command::Get(42, 84)), 18))
    );
    assert_eq!(
        parse_freq_command(b"<14%> Delete;", 0),
        Some(((14, Command::RandomDelete), 13))
    );
    assert_eq!(
        parse_freq_command(b"<15%> Delete(42, 84);", 0),
        Some(((15, Command::Delete(42, 84)), 21))
    );
    assert_eq!(
        parse_freq_command(b"<16%> DeleteRange(42, 84);", 0),
        Some(((16, Command::DeleteRange(42, 84)), 26))
    );
}

fn stmt(c: Command) -> (u8, Statement) {
    let f = match &c {
        Command::RandomGet => 10,
        Command::Overwrite(_) => 20,
        Command::RandomDelete => 30,
        Command::Delete(_, _) => 39,
        Command::DeleteRange(_, _) => 1,
        Command::NewPut(_) => 20,
        _ => 0,
    };
    (f, Statement(vec![c]))
}

#[test]
fn parse_ordered_works() {
    let syntax = b"
Ordered[100] {
  <10%> Get;
  <20%> OverWrite(43);
  <30%> Delete;
  <39%> Delete(10, 20);
  <1%> DeleteRange(99, 100);
}
";
    let expected = Section::Ordered(
        100,
        vec![
            stmt(Command::RandomGet),
            stmt(Command::Overwrite(43)),
            stmt(Command::RandomDelete),
            stmt(Command::Delete(10, 20)),
            stmt(Command::DeleteRange(99, 100)),
        ],
    );
    assert_eq!(parse_ordered(syntax, 0), Some((expected, syntax.len())));
}

#[test]
fn parse_unordered_works() {
    let syntax = b"
Unordered[100] {
  <10%> Get;
  <20%> OverWrite(43);
  <30%> Delete;
  <39%> Delete(10, 20);
  <1%> DeleteRange(99, 100);
}
";
    let expected = Section::Unordered(
        100,
        vec![
            stmt(Command::RandomGet),
            stmt(Command::Overwrite(43)),
            stmt(Command::RandomDelete),
            stmt(Command::Delete(10, 20)),
            stmt(Command::DeleteRange(99, 100)),
        ],
    );
    assert_eq!(parse_unordered(syntax, 0), Some((expected, syntax.len())));
}

#[test]
fn parse_bytes_works() {
    assert_eq!(parse_bytes(b"42", 0), Some((42, 2)));
    assert_eq!(parse_bytes(b"42K", 0), Some((42 * 1024, 3)));
    assert_eq!(parse_bytes(b"42M", 0), Some((42 * 1024 * 1024, 3)));
}

#[test]
fn parse_workload_works() {
    let workload = b"
Ordered[100] {
  <10%> Get;
  <20%> OverWrite(43);
  <30%> Delete;
  <39%> Delete(10, 20);
  <1%> DeleteRange(99, 100);
}

Unordered[100] {
  <10%> Get;
  <20%> OverWrite(43);
  <30%> Delete;
  <39%> Delete(10, 20);
  <1%> DeleteRange(99, 100);
}
";
    let entries = || {
        vec![
            stmt(Command::RandomGet),
            stmt(Command::Overwrite(43)),
            stmt(Command::RandomDelete),
            stmt(Command::Delete(10, 20)),
            stmt(Command::DeleteRange(99, 100)),
        ]
    };
    let w = Workload {
        seed: None,
        sections: vec![
            Section::Ordered(100, entries()),
            Section::Unordered(100, entries()),
        ],
    };
    assert_eq!(parse_workload(workload), Ok(w));
}

#[test]
fn parse_workload_with_seed_works() {
    let workload = b"

Seed: 42;


Ordered[100] {
  <10%> Get;
  <20%> OverWrite(43);
  <30%> Delete;
  <39%> Delete(10, 20);
  <1%> DeleteRange(99, 100);
}

Unordered[100] {
  <10%> Get;
  <20%> OverWrite(43);
  <30%> Delete;
  <39%> Delete(10, 20);
  <1%> DeleteRange(99, 100);
}
";
    let entries = || {
        vec![
            stmt(Command::RandomGet),
            stmt(Command::Overwrite(43)),
            stmt(Command::RandomDelete),
            stmt(Command::Delete(10, 20)),
            stmt(Command::DeleteRange(99, 100)),
        ]
    };
    let w = Workload {
        seed: Some(42),
        sections: vec![
            Section::Ordered(100, entries()),
            Section::Unordered(100, entries()),
        ],
    };
    assert_eq!(parse_workload(workload), Ok(w));
}

#[test]
fn parse_seed_works() {
    assert_eq!(parse_seed(b"Seed: 1234567890;", 0), Some((1234567890, 17)));
}

#[test]
fn parse_line_comment_works() {
    let a = b"# line comment   test";
    assert_eq!(parse_line_comment(a, 0), Some(a.len()));
    let b = b"# line comment   test\n";
    assert_eq!(parse_line_comment(b, 0), Some(b.len() - 1));
    let c = b"# comment    ";
    assert_eq!(parse_line_comment(c, 0), Some(c.len()));
}

#[test]
fn spaces_with_comments_works() {
    let a = b"   #comment1   ";
    assert_eq!(spaces_with_comments(a, 0), a.len());
    let b = b"\n\n#comment1\n\n# comment2\n\n    # comment3\n\n";
    assert_eq!(spaces_with_comments(b, 0), b.len());
}

#[test]
fn parse_section_works() {
    let syntax = b"
# Comment for the following section:
# Iteration 100
# 10-times Get
# 20-times 43bytes New Put
# ...
Ordered[100] {
  <10%> Get;
  <20%> New(43);
  <30%> Delete;
  <39%> Delete(10, 20);
  <1%> DeleteRange(99, 100);
}
";
    let expected = Section::Ordered(
        100,
        vec![
            stmt(Command::RandomGet),
            (20, Statement(vec![Command::NewPut(43)])),
            stmt(Command::RandomDelete),
            stmt(Command::Delete(10, 20)),
            stmt(Command::DeleteRange(99, 100)),
        ],
    );
    assert_eq!(parse_section(syntax, 0), Some((expected, syntax.len())));
}

#[test]
fn render_round_trips_every_command_shape() {
    let cases = vec![
        Command::NewPut(12288),
        Command::Overwrite(43),
        Command::RandomGet,
        Command::Get(0, 100),
        Command::RandomDelete,
        Command::Delete(10, 20),
        Command::DeleteRange(99, 100),
    ];
    for c in cases {
        let text = render_command(&c);
        let parsed = parse_command(&text, 0);
        assert_eq!(parsed, Some((c, text.len())));
    }
}

#[test]
fn rendered_newput_with_suffix_value() {
    // "New(12K)" spells the same command as the rendered "New(12288)".
    let c = Command::NewPut(12288);
    let text = render_command(&c);
    assert_eq!(text, b"New(12288)".to_vec());
    assert_eq!(parse_command(b"New(12K)", 0), Some((c, 8)));
}

#[test]
fn trailing_text_is_an_error() {
    let r = parse_workload(b"Ordered[10]{ <10%> Get; } trailing");
    assert!(r.is_err());
    assert_eq!(r.unwrap_err().position, 26);
}

#[test]
fn empty_input_is_an_error() {
    assert!(parse_workload(b"").is_err());
    assert!(parse_workload(b"   \n ").is_err());
}

#[test]
fn numeric_overflow_is_a_failure_not_a_panic() {
    // Far beyond the range of a byte count.
    assert_eq!(parse_bytes(b"999999999999999999999999999999", 0), None);
    // A frequency beyond its carrying type.
    assert_eq!(parse_freq(b"<300%>", 0), None);
    // A percentage beyond its carrying type.
    assert_eq!(parse_command(b"Get(300, 400)", 0), Some((Command::RandomGet, 3)));
    // A byte count whose suffix pushes it out of range falls back to the
    // plain number, whose leftover suffix then breaks the command.
    assert_eq!(parse_command(b"New(99999999999999999999K)", 0), None);
}

#[test]
fn misplaced_spaces_are_errors() {
    // No spaces are allowed between a section keyword and its brackets.
    assert_eq!(parse_ordered(b"Ordered [100] { }", 0), None);
    // None between the seed number and the semicolon either.
    assert_eq!(parse_seed(b"Seed: 42 ;", 0), None);
}

#[test]
fn parse_with_suffix_works() {
    assert_eq!(parse_with_suffix(b"5K"), Ok(5 * 1024));
    assert_eq!(parse_with_suffix(b"42K"), Ok(43008));
    assert_eq!(parse_with_suffix(b"3M"), Ok(3 * 1024 * 1024));
    assert_eq!(parse_with_suffix(b"1G"), Ok(1024 * 1024 * 1024));
    // The suffix is optional: a bare integer is a capacity literal too.
    assert_eq!(parse_with_suffix(b"42"), Ok(42));
    assert!(parse_with_suffix(b"").is_err());
    assert!(parse_with_suffix(b"5K extra").is_err());
    assert!(parse_with_suffix(b"x5K").is_err());
}

#[test]
fn parse_errors_are_reproducible() {
    let bad: &[u8] = b"Ordered[10]{ <10%> Get; } trailing";
    assert_eq!(parse_workload(bad), parse_workload(bad));
}

#[test]
fn delete_with_perc_works() {
    assert_eq!(
        delete_with_perc(b"Delete(1, 2)", 0),
        Some((Command::Delete(1, 2), 12))
    );
    assert_eq!(delete_with_perc(b"DeleteRange(1, 2)", 0), None);
}

#[test]
fn bytes_with_suffix_requires_a_suffix() {
    assert_eq!(parse_bytes_with_suffix(b"42", 0), None);
    assert_eq!(parse_bytes_with_suffix(b"42G", 0), Some((42 * 1024 * 1024 * 1024, 3)));
}
