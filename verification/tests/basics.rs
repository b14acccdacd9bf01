use domino::order::{key_less, key_of_cause, key_of_name, sort_causes, sort_names};
use domino::path::{join, read_components, FilePath};
use domino::state::AffectedState;
use domino::text::{
    chars_of, finishes_with, has_text, holds, lines_of, parse_usize, remove_char, split_text,
    string_between, strip_start, trimmed,
};
use domino::types::AffectCause;
use std::path::Path;

fn text(v: &Vec<char>) -> String {
    string_between(v, 0, v.len())
}

fn all_texts(v: Vec<Vec<char>>) -> Vec<String> {
    v.iter().map(text).collect()
}

#[test]
fn strings_are_cut_as_std_cuts_them() {
    let samples = ["", "a", "a\nb", "a\r\nb\n", "\n\n", "x\r", "diff diff", " \u{2003}a b\t ", "\"a\""];
    for s in samples {
        let v = chars_of(s);
        let expected: Vec<&str> = s.lines().collect();
        assert_eq!(all_texts(lines_of(&v)), expected);
        let expected: Vec<&str> = s.split("diff").collect();
        assert_eq!(all_texts(split_text(&v, &chars_of("diff"))), expected);
        assert_eq!(text(&trimmed(&v)), s.trim());
        assert_eq!(text(&remove_char(&v, '"')), s.replace('"', ""));
        assert_eq!(text(&strip_start(&v, &chars_of("diff"))), s.trim_start_matches("diff"));
        assert_eq!(holds(&v, &chars_of("b")), s.contains("b"));
        assert_eq!(finishes_with(&v, &chars_of("diff")), s.ends_with("diff"));
    }
}

#[test]
fn white_space_is_what_unicode_says() {
    let white = [
        0x9, 0xa, 0xb, 0xc, 0xd, 0x20, 0x85, 0xa0, 0x1680, 0x2000, 0x2001, 0x2002, 0x2003, 0x2004,
        0x2005, 0x2006, 0x2007, 0x2008, 0x2009, 0x200a, 0x2028, 0x2029, 0x202f, 0x205f, 0x3000,
    ];
    for code in 0..=0x10ffffu32 {
        if let Some(c) = char::from_u32(code) {
            assert_eq!(trimmed(&vec![c]).is_empty(), white.contains(&code));
        }
    }
}

#[test]
fn numbers_are_read_as_std_reads_them() {
    let samples = [
        "", "0", "7", "007", "+5", "-5", "+", "12a", "18446744073709551615", "18446744073709551616",
        "99999999999999999999", " 1", "\u{0663}",
    ];
    for s in samples {
        assert_eq!(parse_usize(&chars_of(s)), s.parse::<usize>().ok());
    }
}

#[test]
fn texts_are_found_in_lists() {
    let names = vec!["a".to_string(), "b".to_string()];
    assert!(has_text(&names, "b"));
    assert!(!has_text(&names, "c"));
}

#[test]
fn paths_agree_with_std() {
    let samples = [
        "", "/", ".", "..", "./a", "a/./b", "a//b/", "/a/../b", "a/b/.", "//a", "./.", "a.b/c", "a",
        "/a", "a/.//b/./c/", "//a/.//b//./", "././a", "./a/./b//c/.", "a/b", "/./a", "a/..",
    ];
    for s in samples {
        let expected: Vec<String> = Path::new(s)
            .components()
            .map(|c| c.as_os_str().to_str().unwrap().to_string())
            .collect();
        assert_eq!(read_components(s), expected);
        let expected = Path::new(s).file_name().map(|n| n.to_str().unwrap().to_string());
        assert_eq!(FilePath::new(s).file_name(), expected);
        assert_eq!(FilePath::new(s).ends_with_name("b"), Path::new(s).ends_with("b"));
        for t in samples {
            assert_eq!(join(s, t), Path::new(s).join(t).to_str().unwrap());
            assert_eq!(FilePath::new(s) == FilePath::new(t), Path::new(s) == Path::new(t));
            let expected = Path::new(s).strip_prefix(t).ok().map(|p| p.to_str().unwrap().to_string());
            let found = FilePath::new(s).strip_prefix(&FilePath::new(t));
            assert_eq!(found.map(|p| p.as_str().to_string()), expected);
        }
    }
}

#[test]
fn paths_order_as_std_orders_them() {
    let samples = ["a", "a/b", "a.b", "b", "/a", "./a", "../a", "a/.b", "\u{e9}"];
    let cause = |s: &str| AffectCause::DirectChange { file: FilePath::new(s), symbol: None, line: 1 };
    for s in samples {
        for t in samples {
            let less = key_less(&key_of_cause(&cause(s)), &key_of_cause(&cause(t)));
            assert_eq!(less, Path::new(s) < Path::new(t));
            assert_eq!(key_less(&key_of_name(s), &key_of_name(t)), s < t);
        }
    }
}

#[test]
fn names_are_sorted_and_listed_once() {
    let names = ["b", "a", "ab", "a", "\u{1f600}", "B"];
    let sorted = sort_names(names.iter().map(|n| n.to_string()).collect());
    assert_eq!(sorted, vec!["B", "a", "ab", "b", "\u{1f600}"]);
}

#[test]
fn causes_are_sorted_by_kind_and_fields() {
    let direct = |symbol: Option<&str>, line: usize| AffectCause::DirectChange {
        file: FilePath::new("a.ts"),
        symbol: symbol.map(|s| s.to_string()),
        line,
    };
    let causes = vec![
        AffectCause::AssetChange {
            asset_file: FilePath::new("a.css"),
            referenced_in: FilePath::new("a.ts"),
            line: 1,
        },
        AffectCause::ImplicitDependency { depends_on: "x".to_string() },
        AffectCause::ReExported {
            through_file: FilePath::new("i.ts"),
            symbol: "s".to_string(),
            source_file: FilePath::new("a.ts"),
        },
        direct(Some("s"), 1),
        direct(None, 10),
        direct(None, 9),
        direct(None, 10),
        AffectCause::ImportedSymbol {
            source_project: "p".to_string(),
            symbol: "s".to_string(),
            via_file: FilePath::new("b.ts"),
            source_file: FilePath::new("a.ts"),
        },
    ];
    let sorted = sort_causes(causes);
    assert_eq!(sorted.len(), 7);
    assert!(matches!(&sorted[0], AffectCause::DirectChange { symbol: None, line: 9, .. }));
    assert!(matches!(&sorted[1], AffectCause::DirectChange { symbol: None, line: 10, .. }));
    assert!(matches!(&sorted[2], AffectCause::DirectChange { symbol: Some(_), line: 1, .. }));
    assert!(matches!(&sorted[3], AffectCause::ImportedSymbol { .. }));
    assert!(matches!(&sorted[4], AffectCause::ReExported { .. }));
    assert!(matches!(&sorted[5], AffectCause::ImplicitDependency { .. }));
    assert!(matches!(&sorted[6], AffectCause::AssetChange { .. }));
}

#[test]
fn state_keeps_reasons_only_where_they_are_wanted() {
    let mut plain = AffectedState::new(false);
    plain.mark("a".to_string(), Some(AffectCause::ImplicitDependency { depends_on: "b".to_string() }));
    plain.mark("a".to_string(), None);
    assert_eq!(plain.list(), vec!["a"]);
    assert!(plain.into_report().is_none());

    let mut reporting = AffectedState::new(true);
    reporting.mark("b".to_string(), Some(AffectCause::ImplicitDependency { depends_on: "y".to_string() }));
    reporting.mark("b".to_string(), Some(AffectCause::ImplicitDependency { depends_on: "x".to_string() }));
    reporting.mark("a".to_string(), Some(AffectCause::ImplicitDependency { depends_on: "z".to_string() }));
    reporting.mark("c".to_string(), None);
    let report = reporting.into_report().unwrap();
    let names: Vec<&str> = report.projects.iter().map(|p| p.name.as_str()).collect();
    assert_eq!(names, vec!["a", "b", "c"]);
    assert!(report.projects[2].causes.is_empty());
    assert_eq!(report.projects[1].causes.len(), 2);
    assert!(matches!(
        &report.projects[1].causes[0],
        AffectCause::ImplicitDependency { depends_on } if depends_on == "x"
    ));
}

#[test]
fn causes_are_equal_when_their_fields_are() {
    let direct = |file: &str, line: usize| AffectCause::DirectChange {
        file: FilePath::new(file),
        symbol: Some("s".to_string()),
        line,
    };
    assert!(direct("a/b.ts", 1) == direct("a//b.ts", 1));
    assert!(direct("a.ts", 1) != direct("a.ts", 2));
    assert!(direct("a.ts", 1) != AffectCause::ImplicitDependency { depends_on: "s".to_string() });
}

#[test]
fn first_spelling_of_a_reason_stays() {
    let asset = |file: &str| AffectCause::AssetChange {
        asset_file: FilePath::new(file),
        referenced_in: FilePath::new("a.ts"),
        line: 1,
    };
    let sorted = sort_causes(vec![asset("b/./c.css"), asset("b/a.css"), asset("b/c.css"), asset("b//c.css")]);
    let spellings: Vec<&str> = sorted
        .iter()
        .map(|c| match c {
            AffectCause::AssetChange { asset_file, .. } => asset_file.as_str(),
            _ => "",
        })
        .collect();
    assert_eq!(spellings, vec!["b/a.css", "b/./c.css"]);
}
