use reminders::codec::{decode, encode};
use reminders::command::{parse_command, parse_id, trim, Command};
use reminders::ops::{add_reminder, delete_reminder, format_reminder, help_lines, max_id, view_reminders};
use reminders::reminder::Reminder;

fn collect_pairs(v: &Vec<Reminder>) -> Vec<(i32, String)> {
    let mut out = Vec::new();
    for r in v.iter() {
        out.push((*r.get_id(), r.get_text().clone()));
    }
    out
}

#[test]
fn adds_hand_out_sequential_ids() {
    let mut v: Vec<Reminder> = Vec::new();
    for k in 1..=5 {
        let id = add_reminder(&mut v, format!("note {}", k));
        assert_eq!(id, k);
    }
    assert_eq!(v.len(), 5);
    for (k, r) in v.iter().enumerate() {
        assert_eq!(*r.get_id(), (k + 1) as i32);
    }
}

#[test]
fn add_view_delete_scenario() {
    let mut v: Vec<Reminder> = Vec::new();
    let id = add_reminder(&mut v, "Buy milk".to_string());
    assert_eq!(id, 1);
    assert_eq!(view_reminders(&v), vec!["1: Buy milk".to_string()]);

    let id = add_reminder(&mut v, "Call Bob".to_string());
    assert_eq!(id, 2);
    assert_eq!(
        view_reminders(&v),
        vec!["1: Buy milk".to_string(), "2: Call Bob".to_string()]
    );

    assert!(delete_reminder(&mut v, 1));
    assert_eq!(view_reminders(&v), vec!["2: Call Bob".to_string()]);

    let id = add_reminder(&mut v, "Pay rent".to_string());
    assert_eq!(id, 3);
    assert_eq!(
        view_reminders(&v),
        vec!["2: Call Bob".to_string(), "3: Pay rent".to_string()]
    );
}

#[test]
fn delete_of_absent_id_changes_nothing() {
    let mut v: Vec<Reminder> = Vec::new();
    add_reminder(&mut v, "one".to_string());
    add_reminder(&mut v, "two".to_string());
    let before = collect_pairs(&v);
    assert!(!delete_reminder(&mut v, 99));
    assert_eq!(collect_pairs(&v), before);
    assert!(!delete_reminder(&mut v, -1));
    assert_eq!(collect_pairs(&v), before);
}

#[test]
fn delete_removes_only_the_first_match() {
    let mut v = vec![
        Reminder::new(7, "a".to_string()),
        Reminder::new(3, "b".to_string()),
        Reminder::new(7, "c".to_string()),
    ];
    assert!(delete_reminder(&mut v, 7));
    assert_eq!(
        collect_pairs(&v),
        vec![(3, "b".to_string()), (7, "c".to_string())]
    );
}

#[test]
fn view_is_idempotent() {
    let mut v: Vec<Reminder> = Vec::new();
    add_reminder(&mut v, "alpha".to_string());
    add_reminder(&mut v, "beta".to_string());
    let before = collect_pairs(&v);
    let first = view_reminders(&v);
    let second = view_reminders(&v);
    assert_eq!(first, second);
    assert_eq!(collect_pairs(&v), before);
}

#[test]
fn id_after_gap_comes_from_current_maximum() {
    let mut v: Vec<Reminder> = Vec::new();
    add_reminder(&mut v, "a".to_string());
    add_reminder(&mut v, "b".to_string());
    add_reminder(&mut v, "c".to_string());
    assert!(delete_reminder(&mut v, 3));
    // the maximum dropped back to 2, so the freed id is handed out again
    let id = add_reminder(&mut v, "d".to_string());
    assert_eq!(id, 3);
    assert!(delete_reminder(&mut v, 1));
    let id = add_reminder(&mut v, "e".to_string());
    assert_eq!(id, 4);
}

#[test]
fn max_id_ignores_negative_ids() {
    let v = vec![
        Reminder::new(-5, "a".to_string()),
        Reminder::new(-2, "b".to_string()),
    ];
    assert_eq!(max_id(&v), 0);
}

#[test]
fn round_trip_preserves_pairs_and_order() {
    let mut v: Vec<Reminder> = Vec::new();
    add_reminder(&mut v, "plain".to_string());
    add_reminder(&mut v, "with, comma".to_string());
    add_reminder(&mut v, "say \"hi\"".to_string());
    add_reminder(&mut v, "two\nlines".to_string());
    add_reminder(&mut v, "".to_string());
    add_reminder(&mut v, "carriage\rreturn".to_string());
    let text = encode(&v);
    let back = decode(&text).expect("the encoder's output must decode");
    assert_eq!(collect_pairs(&back), collect_pairs(&v));
}

#[test]
fn round_trip_of_empty_collection() {
    let v: Vec<Reminder> = Vec::new();
    let text = encode(&v);
    assert_eq!(text, "id,text\n");
    let back = decode(&text).expect("a header-only file is an empty collection");
    assert!(back.is_empty());
}

#[test]
fn round_trip_with_negative_and_extreme_ids() {
    let v = vec![
        Reminder::new(i32::MIN, "lowest".to_string()),
        Reminder::new(-1, "minus".to_string()),
        Reminder::new(0, "zero".to_string()),
        Reminder::new(i32::MAX, "highest".to_string()),
    ];
    let text = encode(&v);
    let back = decode(&text).expect("extreme ids must survive the trip");
    assert_eq!(collect_pairs(&back), collect_pairs(&v));
}

#[test]
fn encode_writes_the_documented_format() {
    let mut v: Vec<Reminder> = Vec::new();
    add_reminder(&mut v, "hello".to_string());
    add_reminder(&mut v, "a,b".to_string());
    assert_eq!(encode(&v), "id,text\n1,hello\n2,\"a,b\"\n");
}

#[test]
fn decode_reads_a_well_formed_file() {
    let text = "id,text\n1,hello\n2,\"a,b\"\n3,\"say \"\"hi\"\"\"\n";
    let v = decode(text).expect("a well-formed file must decode");
    assert_eq!(
        collect_pairs(&v),
        vec![
            (1, "hello".to_string()),
            (2, "a,b".to_string()),
            (3, "say \"hi\"".to_string()),
        ]
    );
}

#[test]
fn decode_of_empty_input_is_an_empty_collection() {
    let v = decode("").expect("an empty file is an empty collection");
    assert!(v.is_empty());
}

#[test]
fn decode_rejects_malformed_input() {
    // no header row
    assert!(decode("1,hello\n").is_err());
    // non-integer id
    assert!(decode("id,text\nxx,hello\n").is_err());
    // missing column
    assert!(decode("id,text\n5\n").is_err());
    // id out of range
    assert!(decode("id,text\n2147483648,too big\n").is_err());
    assert!(decode("id,text\n-2147483649,too low\n").is_err());
    // unterminated quoted field
    assert!(decode("id,text\n1,\"open\n").is_err());
    // stray quote in an unquoted field
    assert!(decode("id,text\n1,he\"llo\n").is_err());
    // missing final newline
    assert!(decode("id,text\n1,hello").is_err());
}

#[test]
fn decode_accepts_boundary_ids() {
    let v = decode("id,text\n2147483647,max\n-2147483648,min\n0,zero\n")
        .expect("boundary ids are valid");
    assert_eq!(
        collect_pairs(&v),
        vec![
            (i32::MAX, "max".to_string()),
            (i32::MIN, "min".to_string()),
            (0, "zero".to_string()),
        ]
    );
}

#[test]
fn commands_match_case_insensitively() {
    assert_eq!(parse_command("quit"), Command::Quit);
    assert_eq!(parse_command("QUIT"), Command::Quit);
    assert_eq!(parse_command("Help"), Command::Help);
    assert_eq!(parse_command("add"), Command::Add);
    assert_eq!(parse_command("ADD"), Command::Add);
    assert_eq!(parse_command("View"), Command::View);
    assert_eq!(parse_command("dElEtE"), Command::Delete);
}

#[test]
fn unrecognized_commands_are_unknown() {
    assert_eq!(parse_command("foo"), Command::Unknown);
    assert_eq!(parse_command(""), Command::Unknown);
    assert_eq!(parse_command("addd"), Command::Unknown);
    assert_eq!(parse_command("qu it"), Command::Unknown);
}

#[test]
fn parse_id_reads_integers_exactly() {
    assert_eq!(parse_id("12"), Ok(12));
    assert_eq!(parse_id("0"), Ok(0));
    assert_eq!(parse_id("-5"), Ok(-5));
    assert_eq!(parse_id("007"), Ok(7));
    assert_eq!(parse_id("2147483647"), Ok(i32::MAX));
    assert_eq!(parse_id("-2147483648"), Ok(i32::MIN));
}

#[test]
fn parse_id_rejects_what_is_not_an_integer() {
    assert!(parse_id("").is_err());
    assert!(parse_id("abc").is_err());
    assert!(parse_id("12x").is_err());
    assert!(parse_id("-").is_err());
    assert!(parse_id("--3").is_err());
    assert!(parse_id("1 2").is_err());
    assert!(parse_id("2147483648").is_err());
    assert!(parse_id("-2147483649").is_err());
    assert!(parse_id("99999999999999999999").is_err());
}

#[test]
fn bad_id_input_leaves_the_collection_alone() {
    let mut v: Vec<Reminder> = Vec::new();
    add_reminder(&mut v, "keep me".to_string());
    let before = collect_pairs(&v);
    match parse_id("not-a-number") {
        Ok(id) => {
            delete_reminder(&mut v, id);
            panic!("'not-a-number' must not parse");
        }
        Err(_) => {}
    }
    assert_eq!(collect_pairs(&v), before);
}

#[test]
fn trim_strips_surrounding_whitespace() {
    assert_eq!(trim("  add  "), "add");
    assert_eq!(trim("quit\n"), "quit");
    assert_eq!(trim("\t view \r\n"), "view");
    assert_eq!(trim(""), "");
    assert_eq!(trim("   "), "");
    assert_eq!(trim("a b"), "a b");
}

#[test]
fn formats_one_reminder_as_id_colon_text() {
    let r = Reminder::new(12, "water the plants".to_string());
    assert_eq!(format_reminder(&r), "12: water the plants");
    let r = Reminder::new(-7, "from a file".to_string());
    assert_eq!(format_reminder(&r), "-7: from a file");
}

#[test]
fn getters_expose_id_and_text() {
    let r = Reminder::new(4, "call home".to_string());
    assert_eq!(*r.get_id(), 4);
    assert_eq!(r.get_text(), "call home");
}

#[test]
fn help_text_lists_every_command() {
    let lines = help_lines();
    assert_eq!(lines.len(), 7);
    assert_eq!(lines[0], "Welcome to the reminder CLI app!");
    assert_eq!(lines[1], "Available commands are:");
    assert_eq!(lines[2], "'add': add a new reminder");
    assert_eq!(lines[3], "'view': view your reminders");
    assert_eq!(lines[4], "'delete': delete a selected reminder");
    assert_eq!(lines[5], "'help': show this summary");
    assert_eq!(lines[6], "'quit': exit the app");
}
