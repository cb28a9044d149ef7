use ce_db::grant::{not_after, now, parse_abilities, read_abilities, seconds_or_zero, validate_abilities};
use ce_db::report::{
    change_line, document_line, grant_lines, grant_lines_showing, inspect_lines,
    inspect_lines_showing, query_lines, snapshot_lines, status_lines, watch_line, GrantInfo,
};
use ce_db::{Error, ABILITY_ADMIN, ABILITY_READ, ABILITY_WRITE};

fn strings(parts: &[&str]) -> Vec<String> {
    parts.iter().map(|s| s.to_string()).collect()
}

#[test]
fn abilities_must_exist() {
    assert_eq!(validate_abilities(&[ABILITY_READ, ABILITY_WRITE, ABILITY_ADMIN]), Ok(()));
    assert_eq!(validate_abilities(&["db:read", "db:read"]), Ok(()));
    assert_eq!(
        validate_abilities(&["db:read", "db:own", "x"]),
        Err(Error::UnknownAbility("db:own".to_string()))
    );
    assert_eq!(validate_abilities(&["DB:READ"]), Err(Error::UnknownAbility("DB:READ".to_string())));
    assert_eq!(validate_abilities(&[]), Err(Error::NoAbility));
}

#[test]
fn abilities_are_listed_with_commas() {
    assert_eq!(parse_abilities("db:read,db:write"), strings(&["db:read", "db:write"]));
    assert_eq!(
        parse_abilities(" db:read ,\t,, db:admin\u{a0}\u{3000}"),
        strings(&["db:read", "db:admin"])
    );
    assert_eq!(parse_abilities("a b"), strings(&["a b"]));
    assert_eq!(parse_abilities(""), Vec::<String>::new());
    assert_eq!(read_abilities("db:write, db:read"), Ok(strings(&["db:write", "db:read"])));
    assert_eq!(read_abilities(" , "), Err(Error::NoAbility));
    assert_eq!(read_abilities("db:read,x"), Err(Error::UnknownAbility("x".to_string())));
}

#[test]
fn grants_end_some_seconds_from_now_or_never() {
    assert_eq!(not_after(1000, 86400), 87400);
    assert_eq!(not_after(1000, 0), 0);
    assert_eq!(not_after(u64::MAX - 1, 1), u64::MAX);
}

#[test]
fn the_clock_stands_after_the_epoch() {
    assert_eq!(seconds_or_zero(Some(7)), 7);
    assert_eq!(seconds_or_zero(None), 0);
    let before = std::time::SystemTime::now()
        .duration_since(std::time::UNIX_EPOCH)
        .unwrap()
        .as_secs();
    let read = now();
    assert!(before <= read && read <= before + 60);
}

#[test]
fn grants_are_shown() {
    let expected = strings(&[
        "# grant for collection 'users', abilities [\"db:read\", \"db:write\"]",
        "# audience 00ff",
        "# present this token to gain access:",
        "abcd",
    ]);
    assert_eq!(grant_lines("users", &strings(&["db:read", "db:write"]), "00ff", "abcd"), expected);
    assert_eq!(
        grant_lines_showing("users", "[\"db:read\", \"db:write\"]", "00ff", "abcd"),
        expected
    );
}

#[test]
fn tokens_are_inspected() {
    let info = GrantInfo {
        collection: "users".to_string(),
        holder: Some("aa".to_string()),
        root: Some("bb".to_string()),
        leaf: Some((strings(&["db:read", "db:\"x\"\n"]), 1700000000)),
        links: 2,
    };
    assert_eq!(
        inspect_lines(&info),
        strings(&[
            "collection: users",
            "holder:     aa",
            "root:       bb",
            "abilities:  [\"db:read\", \"db:\\\"x\\\"\\n\"]",
            "expires:    unix 1700000000",
            "chain links: 2",
        ])
    );
    let info = GrantInfo {
        collection: "users".to_string(),
        holder: None,
        root: None,
        leaf: Some((vec![], 0)),
        links: 10,
    };
    assert_eq!(
        inspect_lines(&info),
        strings(&["collection: users", "abilities:  []", "expires:    never", "chain links: 10"])
    );
    let info = GrantInfo { leaf: None, links: 0, ..info };
    assert_eq!(inspect_lines(&info), strings(&["collection: users", "chain links: 0"]));
    assert_eq!(inspect_lines_showing(&info, "x"), strings(&["collection: users", "chain links: 0"]));
}

#[test]
fn documents_are_shown() {
    assert_eq!(document_line("ada", "{\"age\":36}"), "ada\t{\"age\":36}");
    assert_eq!(query_lines(&[]), strings(&["(no documents)"]));
    assert_eq!(
        query_lines(&[("a".to_string(), "{}".to_string()), ("b".to_string(), "[]".to_string())]),
        strings(&["a\t{}", "b\t[]"])
    );
    assert_eq!(snapshot_lines(&[]), strings(&["(empty)"]));
    assert_eq!(
        snapshot_lines(&[
            ("a".to_string(), Some("{}".to_string())),
            ("b".to_string(), None),
            ("c".to_string(), Some("{}".to_string())),
        ]),
        strings(&["a\t{}", "c\t{}"])
    );
    assert_eq!(snapshot_lines(&[("b".to_string(), None)]), Vec::<String>::new());
}

#[test]
fn the_state_of_a_collection_is_shown() {
    assert_eq!(watch_line("users", "ff"), "-- watching 'users' (node ff) --");
    assert_eq!(change_line(1), "-- change (op_count=1) --");
    assert_eq!(change_line(1050), "-- change (op_count=1050) --");
    assert_eq!(
        status_lines("ff", "users", 12, &[("ff".to_string(), 3), ("aa".to_string(), u64::MAX)]),
        strings(&[
            "node: ff",
            "collection 'users': 12 docs",
            "  writer ff @ version 3",
            "  writer aa @ version 18446744073709551615",
        ])
    );
}
