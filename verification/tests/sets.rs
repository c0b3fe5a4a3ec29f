use anonymous_corpus::bridge::{
    parse_assignments, render_catalog, BridgeError, BridgeLineProblem, RenderError, CATALOG_HEADER,
};
use anonymous_corpus::ids::card_path;
use anonymous_corpus::maps::TextMap;
use anonymous_corpus::origin::{rewrite_origin_set, RewriteError};
use anonymous_corpus::registry::{
    assign_sets, read_set_registry, render_set_registry, AssignError, RegistryError,
    RegistryLineProblem, SetAssignment,
};
use anonymous_corpus::scryfall::ScryfallCard;
use anonymous_corpus::set_ids::{
    alpha_suffix, parse_anonymous_set_id, release_year, validate_anonymous_set_id,
    validate_origin_set, ReleaseDateError, SetIdError,
};
use anonymous_corpus::sets::{load_set_metadata, SetMetadata};
use anonymous_corpus::source_catalog::{
    parse_catalog, CatalogRow, Column, RowProblem, SourceCatalogError,
};
use anonymous_corpus::uuids::Uuid;

fn uuid(last: u8) -> Uuid {
    Uuid(last as u128)
}

fn row(id: u32, code: &str) -> CatalogRow {
    CatalogRow {
        id,
        oracle_id: uuid(id as u8),
        name_hash: "a".repeat(64),
        publisher_set_code: code.to_string(),
    }
}

fn set(last: u8, code: &str, date: &str) -> SetMetadata {
    SetMetadata {
        set_id: uuid(last),
        publisher_code: code.to_string(),
        released_at: date.to_string(),
    }
}

fn table(sets: Vec<SetMetadata>) -> TextMap<SetMetadata> {
    let mut out = TextMap::new();
    for set in sets {
        out.insert(set.publisher_code.clone(), set);
    }
    out
}

fn assignment(id: &str, last: u8) -> SetAssignment {
    SetAssignment {
        anonymous_id: id.to_string(),
        set_id: uuid(last),
    }
}

#[test]
fn initial_assignment_orders_by_release_date_then_publisher_code() {
    let rows = vec![row(1, "zzz"), row(2, "aaa"), row(3, "old")];
    let metadata = table(vec![
        set(1, "zzz", "2025-02-01"),
        set(2, "aaa", "2025-02-01"),
        set(3, "old", "1993-08-05"),
    ]);
    let assigned = assign_sets(&rows, &metadata, Vec::new()).unwrap();
    assert_eq!(
        assigned
            .iter()
            .map(|entry| entry.anonymous_id.as_str())
            .collect::<Vec<_>>(),
        ["1993A", "2025A", "2025B"]
    );
    assert_eq!(
        assigned.iter().map(|entry| entry.set_id).collect::<Vec<_>>(),
        [uuid(3), uuid(2), uuid(1)]
    );
}

#[test]
fn frozen_assignments_never_move_when_an_older_set_appears_late() {
    let rows = vec![row(1, "late")];
    let metadata = table(vec![set(2, "late", "2025-01-01")]);
    let existing = vec![assignment("2025A", 1)];
    let assigned = assign_sets(&rows, &metadata, existing).unwrap();
    assert_eq!(assigned[0].anonymous_id, "2025A");
    assert_eq!(assigned[1].anonymous_id, "2025B");
}

#[test]
fn suffix_continues_from_z_to_aa() {
    assert_eq!(alpha_suffix(0), "A");
    assert_eq!(alpha_suffix(25), "Z");
    assert_eq!(alpha_suffix(26), "AA");
    assert_eq!(alpha_suffix(27), "AB");
    assert_eq!(parse_anonymous_set_id("2025AA").unwrap(), (2025, 26));
}

#[test]
fn rendered_catalog_contains_no_publisher_code_or_title() {
    let rows = vec![row(1, "set")];
    let metadata = table(vec![set(7, "set", "2025-01-01")]);
    let assignments = vec![assignment("2025A", 7)];
    let output = render_catalog(&rows, &metadata, &assignments).unwrap();
    assert!(output.starts_with(CATALOG_HEADER));
    assert!(output.ends_with("\t2025A\n"));
    assert!(!output.contains("\tset"));
}

#[test]
fn changes_only_the_origin_set_field() {
    let source = "Id:3\nColorIdentity:R\nOriginSet:Gfixture\nManaCost:R\n";
    assert_eq!(
        rewrite_origin_set(source, 3, "2025AA").unwrap(),
        "Id:3\nColorIdentity:R\nOriginSet:2025AA\nManaCost:R\n"
    );
}

#[test]
fn rejects_missing_or_duplicate_structural_fields() {
    assert!(rewrite_origin_set("Id:3\nManaCost:R\n", 3, "2025A").is_err());
    assert!(rewrite_origin_set("Id:3\nOriginSet:x\nOriginSet:y\n", 3, "2025A").is_err());
}

#[test]
fn numeric_trie_path_is_stable() {
    assert_eq!(card_path("cards", 12_345_678), "cards/12/34/56/12345678.txt");
}

#[test]
fn trie_paths_differ_and_long_ids_keep_all_digits() {
    assert_eq!(card_path("cards", 7), "cards/00/00/00/00000007.txt");
    assert_eq!(card_path("cards/", 7), "cards/00/00/00/00000007.txt");
    assert_eq!(card_path("", u32::MAX), "42/94/96/4294967295.txt");
    assert_ne!(card_path("cards", 1), card_path("cards", 10));
}

#[test]
fn suffixes_and_ordinals_undo_each_other() {
    for ordinal in [0u128, 1, 25, 26, 51, 52, 701, 702, 703, 18_277, 18_278, 1_000_000] {
        let id = format!("1999{}", alpha_suffix(ordinal));
        assert_eq!(parse_anonymous_set_id(&id), Ok((1999, ordinal as usize)));
    }
    assert_eq!(alpha_suffix(701), "ZZ");
    assert_eq!(alpha_suffix(702), "AAA");
}

#[test]
fn set_ids_are_checked() {
    assert_eq!(parse_anonymous_set_id("2025"), Err(SetIdError::TooShort));
    assert_eq!(parse_anonymous_set_id("20A5B"), Err(SetIdError::NoYear));
    assert_eq!(parse_anonymous_set_id("日本語"), Err(SetIdError::NoYear));
    assert_eq!(parse_anonymous_set_id("aaaéA"), Err(SetIdError::NoYear));
    assert_eq!(parse_anonymous_set_id("2025a"), Err(SetIdError::BadSuffix));
    assert_eq!(parse_anonymous_set_id("20251"), Err(SetIdError::BadSuffix));
    assert_eq!(
        parse_anonymous_set_id("2025ZZZZZZZZZZZZZZZZZZZZ"),
        Err(SetIdError::TooLarge)
    );
    assert_eq!(parse_anonymous_set_id("+123A"), Ok((123, 0)));
    assert_eq!(validate_anonymous_set_id("2025A"), Ok(()));
    assert_eq!(validate_anonymous_set_id("x"), Err(SetIdError::TooShort));
}

#[test]
fn origin_sets_are_checked() {
    assert!(validate_origin_set("2025A").is_ok());
    assert!(validate_origin_set("0000ZZ").is_ok());
    assert!(validate_origin_set("2025").is_err());
    assert!(validate_origin_set("+123A").is_err());
    assert!(validate_origin_set("2025a").is_err());
    assert!(validate_origin_set("2025É").is_err());
}

#[test]
fn release_years_are_the_first_four_bytes() {
    assert_eq!(release_year("2025-02-01"), Ok(2025));
    assert_eq!(release_year("+123"), Ok(123));
    assert_eq!(release_year("202"), Err(ReleaseDateError::NoYear));
    assert_eq!(release_year("aaaé"), Err(ReleaseDateError::NoYear));
    assert_eq!(release_year("20x5"), Err(ReleaseDateError::InvalidYear));
    assert_eq!(release_year("éé"), Err(ReleaseDateError::InvalidYear));
    assert_eq!(release_year("😀1"), Err(ReleaseDateError::InvalidYear));
}

fn card(set: &str, id: u128, released: &str) -> ScryfallCard {
    ScryfallCard {
        set: set.to_owned(),
        set_id: Uuid(id),
        released_at: released.to_owned(),
        ..Default::default()
    }
}

#[test]
fn sets_take_their_earliest_printing() {
    let sets = load_set_metadata(&[
        card("LST", 1, "2021-05-01"),
        card("lst", 1, "2020-09-26"),
        card("lst", 1, "2022-01-01"),
        card("abc", 2, "1999-01-01"),
    ])
    .ok()
    .unwrap();
    let set = sets.get("lst").unwrap();
    assert_eq!(set.released_at, "2020-09-26");
    assert_eq!(set.publisher_code, "lst");
    assert_eq!(set.set_id, Uuid(1));
    assert!(sets.get("abc").is_some());
    assert!(sets.get("LST").is_none());
}

#[test]
fn one_code_for_two_sets_is_a_conflict() {
    let conflict = load_set_metadata(&[card("LST", 1, "2021"), card("lst", 2, "2020")])
        .err()
        .unwrap();
    assert_eq!(conflict.code, "lst");
}

#[test]
fn assigning_names_what_is_missing() {
    let metadata = table(vec![set(1, "aaa", "2025-01-01"), set(2, "bad", "20")]);
    let missing = assign_sets(&[row(1, "zzz"), row(2, "mmm"), row(3, "aaa")], &metadata, Vec::new());
    assert!(matches!(missing, Err(AssignError::NoMetadata(code)) if code == "mmm"));
    let invalid = assign_sets(&[row(1, "aaa")], &metadata, vec![assignment("20", 9)]);
    assert!(matches!(invalid, Err(AssignError::InvalidAssignment(SetIdError::TooShort))));
    let undated = assign_sets(&[row(1, "bad")], &metadata, Vec::new());
    assert!(matches!(
        undated,
        Err(AssignError::InvalidRelease { released_at, problem: ReleaseDateError::NoYear }) if released_at == "20"
    ));
}

#[test]
fn assigning_again_changes_nothing() {
    let rows = vec![row(1, "aaa"), row(2, "bbb")];
    let metadata = table(vec![set(1, "aaa", "2025-01-01"), set(2, "bbb", "2024-01-01")]);
    let first = assign_sets(&rows, &metadata, vec![assignment("2025Z", 9)]).unwrap();
    let ids: Vec<String> = first.iter().map(|entry| entry.anonymous_id.clone()).collect();
    assert_eq!(ids, ["2025Z", "2024A", "2025AA"]);
    let second = assign_sets(&rows, &metadata, first).unwrap();
    let again: Vec<String> = second.iter().map(|entry| entry.anonymous_id.clone()).collect();
    assert_eq!(again, ids);
    assert!(render_catalog(&rows, &metadata, &second).is_ok());
}

#[test]
fn registries_read_back_as_they_were_written() {
    let assignments = vec![assignment("1993A", 3), assignment("2025AB", 200)];
    let text = render_set_registry(&assignments).unwrap();
    assert_eq!(
        text,
        "#anonymous_set_id\tscryfall_set_id\n1993A\t00000000-0000-0000-0000-000000000003\n2025AB\t00000000-0000-0000-0000-0000000000c8\n"
    );
    let read = read_set_registry(&text).unwrap();
    assert_eq!(read.len(), 2);
    assert_eq!(read[0].anonymous_id, "1993A");
    assert_eq!(read[0].set_id, uuid(3));
    assert_eq!(read[1].anonymous_id, "2025AB");
    assert_eq!(read[1].set_id, uuid(200));
    assert!(matches!(
        render_set_registry(&[assignment("x", 1)]),
        Err(SetIdError::TooShort)
    ));
}

#[test]
fn registry_lines_are_checked() {
    let read = |body: &str| read_set_registry(&format!("#anonymous_set_id\tscryfall_set_id\n{body}")).err();
    assert_eq!(read_set_registry("").err(), Some(RegistryError::UnexpectedHeader));
    assert_eq!(read_set_registry("x\n").err(), Some(RegistryError::UnexpectedHeader));
    assert_eq!(read(""), None);
    let problem = |problem| Some(RegistryError::Line { line: 2, problem });
    assert_eq!(read("2025A\n"), problem(RegistryLineProblem::NoTab));
    assert_eq!(read("2025A\tzz\n"), problem(RegistryLineProblem::InvalidSetId));
    assert_eq!(
        read("2025a\t00000000000000000000000000000001\n"),
        problem(RegistryLineProblem::InvalidAnonymousId(SetIdError::BadSuffix))
    );
    let one = "00000000-0000-0000-0000-000000000001";
    let two = "00000000-0000-0000-0000-000000000002";
    let duplicate = Some(RegistryError::Line { line: 3, problem: RegistryLineProblem::Duplicate });
    assert_eq!(read(&format!("2025A\t{one}\n2025A\t{two}\n")), duplicate);
    assert_eq!(read(&format!("2025A\t{one}\n2025B\t{one}\n")), duplicate);
}

#[test]
fn uuids_are_read_in_every_form_and_written_in_one() {
    let header = "#anonymous_set_id\tscryfall_set_id\n";
    for form in [
        "123456781234123412341234567890AB",
        "12345678-1234-1234-1234-1234567890ab",
        "{12345678-1234-1234-1234-1234567890ab}",
        "urn:uuid:12345678-1234-1234-1234-1234567890AB",
        "URN:UUID:12345678-1234-1234-1234-1234567890ab",
    ] {
        let read = read_set_registry(&format!("{header}2025A\t{form}\n"));
        match uuid::Uuid::parse_str(form) {
            Ok(id) => {
                let read = read.unwrap();
                assert_eq!(read[0].set_id, Uuid(id.as_u128()));
                assert_eq!(
                    render_set_registry(&read).unwrap(),
                    format!("{header}2025A\t12345678-1234-1234-1234-1234567890ab\n")
                );
            }
            Err(_) => assert!(read.is_err()),
        }
    }
    for form in ["", "12345678", "{123456781234123412341234567890ab}", "12345678-1234-1234-1234-1234567890ag"] {
        assert_eq!(
            read_set_registry(&format!("{header}2025A\t{form}\n")).is_ok(),
            uuid::Uuid::parse_str(form).is_ok()
        );
    }
}

#[test]
fn rendering_names_what_is_missing() {
    let metadata = table(vec![set(1, "aaa", "2025-01-01")]);
    assert!(matches!(
        render_catalog(&[row(1, "zzz")], &metadata, &[]),
        Err(RenderError::MissingMetadata(code)) if code == "zzz"
    ));
    assert!(matches!(
        render_catalog(&[row(1, "aaa")], &metadata, &[assignment("2025A", 2)]),
        Err(RenderError::MissingAssignment(set)) if set == uuid(1)
    ));
    let twice = render_catalog(
        &[row(1, "aaa")],
        &metadata,
        &[assignment("2025A", 1), assignment("2025B", 1)],
    )
    .unwrap();
    assert!(twice.ends_with("\t2025B\n"));
}

#[test]
fn written_catalogs_read_back() {
    let rows = vec![row(1, "aaa"), row(2, "bbb")];
    let metadata = table(vec![set(1, "aaa", "2025-01-01"), set(2, "bbb", "2024-01-01")]);
    let assignments = assign_sets(&rows, &metadata, Vec::new()).unwrap();
    let text = render_catalog(&rows, &metadata, &assignments).unwrap();
    assert_eq!(
        parse_assignments(&text).unwrap(),
        vec![(1, "2025A".to_string()), (2, "2024A".to_string())]
    );
    let catalog = anonymous_corpus::catalog::load_catalog_index(&text).ok().unwrap();
    assert_eq!(catalog.len(), 2);
    assert_eq!(catalog.card_ids(2).unwrap()[0].0, 2);
    assert_eq!(
        catalog.set_group(anonymous_corpus::ids::CardScriptId(1)).unwrap(),
        "2025A"
    );
}

#[test]
fn anonymous_catalog_lines_are_checked() {
    let hash = "a".repeat(64);
    let read = |body: &str| parse_assignments(&format!("{CATALOG_HEADER}\n{body}")).err();
    let problem = |problem| Some(BridgeError::Line { line: 2, problem });
    assert_eq!(parse_assignments("#id\n").err(), Some(BridgeError::UnexpectedHeader));
    assert_eq!(parse_assignments("").err(), Some(BridgeError::UnexpectedHeader));
    assert_eq!(read("1\tx\ty\n"), problem(BridgeLineProblem::ColumnCount));
    assert_eq!(read("\n"), problem(BridgeLineProblem::ColumnCount));
    assert_eq!(read(&format!("x\to\t{hash}\t2025A\n")), problem(BridgeLineProblem::InvalidId));
    assert_eq!(
        read(&format!("2\to\t{hash}\t2025A\n")),
        problem(BridgeLineProblem::UnexpectedId { found: 2, expected: 1 })
    );
    assert_eq!(
        read(&format!("1\to\t{hash}\tG1\n")),
        problem(BridgeLineProblem::InvalidOriginSet)
    );
}

#[test]
fn rewriting_again_changes_nothing_more() {
    let source = "Id:3\nOriginSet:1993A\nManaCost:R";
    let once = rewrite_origin_set(source, 3, "2025B").unwrap();
    assert_eq!(once, "Id:3\nOriginSet:2025B\nManaCost:R\n");
    assert_eq!(rewrite_origin_set(&once, 3, "2025B").unwrap(), once);
    assert_eq!(
        rewrite_origin_set(&once, 3, "1993A").unwrap(),
        rewrite_origin_set(source, 3, "1993A").unwrap()
    );
    assert_eq!(
        rewrite_origin_set(source, 3, "bad"),
        Err(RewriteError::InvalidOriginSet)
    );
    assert_eq!(
        rewrite_origin_set(source, 4, "2025B"),
        Err(RewriteError::FieldCounts { ids: 0, origins: 1 })
    );
    assert_eq!(
        rewrite_origin_set("Id:3\nId:3\n", 3, "2025B"),
        Err(RewriteError::FieldCounts { ids: 2, origins: 0 })
    );
}

#[test]
fn source_catalogs_are_read_by_their_columns() {
    let source = "oracle_id\tname\t#id\tfirst_set\n00000000-0000-0000-0000-0000000000aa\tFixture Card\t7\t LEA \n\n00000000-0000-0000-0000-0000000000aa\tFixture Other\t3\tleb\n";
    let rows = parse_catalog(source).unwrap();
    assert_eq!(rows.len(), 2);
    assert_eq!(rows[0].id, 7);
    assert_eq!(rows[0].oracle_id, Uuid(0xaa));
    assert_eq!(
        rows[0].name_hash,
        "48d867ad41b2dfdebd3a67ae2b34945a91f0d0670759f60ed74cfdfc32e2c86e"
    );
    assert_eq!(rows[0].publisher_set_code, "lea");
    assert_eq!(
        rows[1].name_hash,
        "624adbb415dc357960986a2f19d8af5f3fd06ad9fb51becf5724a034b27f1b03"
    );
}

#[test]
fn source_catalog_problems_are_told() {
    let header = "#id\tname\toracle_id\tfirst_set\n";
    let aa = "00000000-0000-0000-0000-0000000000aa";
    let bb = "00000000-0000-0000-0000-0000000000bb";
    let read = |body: &str| parse_catalog(&format!("{header}{body}")).err();
    let at = |line, problem| Some(SourceCatalogError::Row { line, problem });
    assert_eq!(parse_catalog("").err(), Some(SourceCatalogError::Empty));
    for (columns, missing) in [
        ("name\tfirst_set\toracle_id", Column::Id),
        ("#id\tfirst_set\toracle_id", Column::Name),
        ("#id\tname\toracle_id", Column::FirstSet),
        ("#id\tname\tfirst_set", Column::OracleId),
    ] {
        assert_eq!(
            parse_catalog(columns).err(),
            Some(SourceCatalogError::MissingColumn(missing))
        );
    }
    assert_eq!(read(""), Some(SourceCatalogError::NoRows));
    assert_eq!(read(" \n"), Some(SourceCatalogError::NoRows));
    assert_eq!(read("x\tn\n"), at(2, RowProblem::InvalidId));
    assert_eq!(read("0\tn\n"), at(2, RowProblem::ZeroOrDuplicateId(0)));
    assert_eq!(read("1\n"), at(2, RowProblem::MissingField(Column::Name)));
    assert_eq!(read("1\t\n"), at(2, RowProblem::EmptyName));
    assert_eq!(read("1\tn\n"), at(2, RowProblem::MissingField(Column::OracleId)));
    assert_eq!(read("1\tn\tz\n"), at(2, RowProblem::InvalidOracleId));
    assert_eq!(
        read(&format!("1\tn\t{aa}\n")),
        at(2, RowProblem::MissingField(Column::FirstSet))
    );
    assert_eq!(
        read(&format!("1\tn\t{aa}\ts\n\n1\tm\t{bb}\ts\n")),
        at(4, RowProblem::ZeroOrDuplicateId(1))
    );
    assert_eq!(
        read(&format!("1\tn\t{aa}\ts\n2\tn\t{aa}\ts\n")),
        at(3, RowProblem::DuplicateIdentity)
    );
    assert_eq!(
        parse_catalog("name\toracle_id\tfirst_set\t#id\nn\n").err(),
        at(2, RowProblem::MissingField(Column::Id))
    );
}

#[test]
fn set_codes_and_dates_leave_no_trace_in_the_catalog() {
    let assignments = vec![assignment("2025A", 7)];
    let left = render_catalog(
        &[row(1, "aaa")],
        &table(vec![set(7, "aaa", "2025-01-01")]),
        &assignments,
    );
    let right = render_catalog(
        &[row(1, "zzz")],
        &table(vec![set(7, "zzz", "1999-01-01")]),
        &assignments,
    );
    assert_eq!(left.unwrap(), right.unwrap());
}

#[test]
fn written_catalogs_give_provenance() {
    let rows = vec![row(1, "aaa"), row(2, "aaa")];
    let metadata = table(vec![set(1, "aaa", "2025-01-01")]);
    let assignments = assign_sets(&rows, &metadata, Vec::new()).unwrap();
    let text = render_catalog(&rows, &metadata, &assignments).unwrap();
    let identity = "b".repeat(64);
    let provenance = anonymous_corpus::provenance::make_provenance(&identity, &text).unwrap();
    assert_eq!(provenance.rows, 2);
    assert!(provenance.document.ends_with(
        "\n1\t00000000-0000-0000-0000-000000000001\n2\t00000000-0000-0000-0000-000000000002\n"
    ));
    assert_eq!(
        anonymous_corpus::provenance::read_oracle_ids(&provenance.document),
        Ok(vec![1, 2])
    );
}

#[test]
fn rewriting_a_generated_script_regenerates_it() {
    let generate = |group: &str| {
        anonymous_corpus::sanitize::sanitize_script(
            "Name:Title\nManaCost:R\nTypes:Instant\n",
            anonymous_corpus::ids::CardScriptId(12),
            "R",
            group,
            &[],
            &TextMap::new(),
        )
    };
    assert_eq!(generate("1993A").lines().next(), Some("Id:12"));
    assert_eq!(
        rewrite_origin_set(&generate("1993A"), 12, "2025B").unwrap(),
        generate("2025B")
    );
}

#[test]
fn new_ordinals_continue_after_the_greatest_frozen_one() {
    let rows = vec![row(1, "bbb"), row(2, "aaa"), row(3, "aaa"), row(4, "old"), row(5, "new")];
    let metadata = table(vec![
        set(1, "bbb", "2025-03-01"),
        set(2, "aaa", "2025-03-01"),
        set(3, "old", "2024-12-31"),
        set(4, "idle", "2025-01-01"),
        set(5, "new", "2025-02-01"),
    ]);
    let frozen = vec![assignment("2025D", 8), assignment("2025A", 9)];
    let first = assign_sets(&rows, &metadata, frozen).unwrap();
    let pairs = |assigned: &[SetAssignment]| {
        assigned
            .iter()
            .map(|entry| (entry.anonymous_id.clone(), entry.set_id))
            .collect::<Vec<_>>()
    };
    let expected = [
        ("2025D", 8),
        ("2025A", 9),
        ("2024A", 3),
        ("2025E", 5),
        ("2025F", 2),
        ("2025G", 1),
    ];
    assert_eq!(
        pairs(&first),
        expected.map(|(id, last)| (id.to_string(), uuid(last)))
    );
    let before = pairs(&first);
    assert_eq!(pairs(&assign_sets(&rows, &metadata, first).unwrap()), before);
}
