use mr::names::{
    intermediate_name, library_path, output_name, sequential_name, temp_file, TMP_PATH,
};
use mr::text::{
    contains_text, decimal_string, join_strings, split_lines, split_words, starts_with,
    text_before, CharClass,
};

fn strings(items: &[&str]) -> Vec<String> {
    items.iter().map(|s| s.to_string()).collect()
}

#[test]
fn it_works() {
    let result = mr::add(2, 2);
    assert_eq!(result, 4);
}

#[test]
fn add_zero() {
    assert_eq!(mr::add(0, 0), 0);
    assert_eq!(mr::add(usize::MAX - 1, 1), usize::MAX);
}

#[test]
fn test_load_function() {
    assert_eq!(library_path("target/release", "app_wc"), "target/release/libapp_wc.dylib");
    assert_eq!(library_path("", "x"), "/libx.dylib");
}

#[test]
fn test_temp_file() {
    println!("{}", temp_file());
}

#[test]
fn temp_file_is_scratch_dir_and_uuid() {
    let path = temp_file();
    let prefix = format!("{}/", TMP_PATH);
    assert!(path.starts_with(&prefix));
    let name: Vec<char> = path[prefix.len()..].chars().collect();
    assert_eq!(name.len(), 36);
    for (i, c) in name.iter().enumerate() {
        if i == 8 || i == 13 || i == 18 || i == 23 {
            assert_eq!(*c, '-');
        } else {
            assert!(c.is_ascii_digit() || ('a'..='f').contains(c));
        }
    }
}

#[test]
fn temp_files_differ() {
    assert_ne!(temp_file(), temp_file());
}

#[test]
fn file_names() {
    assert_eq!(intermediate_name(3, 7, "abc"), "mr-3-7-abc");
    assert_eq!(intermediate_name(0, 0, ""), "mr-0-0-");
    assert_eq!(intermediate_name(12, 345, "x-y"), "mr-12-345-x-y");
    assert_eq!(output_name(0), "mr-out-0");
    assert_eq!(output_name(42), "mr-out-42");
    assert_eq!(sequential_name("wc"), "mr-wc-seq");
    assert_eq!(sequential_name("app_indexer"), "mr-app_indexer-seq");
}

#[test]
fn decimal_of_numbers() {
    assert_eq!(decimal_string(0), "0");
    assert_eq!(decimal_string(7), "7");
    assert_eq!(decimal_string(10), "10");
    assert_eq!(decimal_string(1234567890), "1234567890");
    assert_eq!(decimal_string(u64::MAX), "18446744073709551615");
}

#[test]
fn words_are_runs_of_letters() {
    assert_eq!(split_words("cat dog", CharClass::Alphabetic), strings(&["cat", "dog"]));
    assert_eq!(
        split_words("  The cat's 2nd--hat!", CharClass::Alphabetic),
        strings(&["The", "cat", "s", "nd", "hat"])
    );
    assert_eq!(split_words("", CharClass::Alphabetic), Vec::<String>::new());
    assert_eq!(split_words("123 456", CharClass::Alphabetic), Vec::<String>::new());
    assert_eq!(split_words("one", CharClass::Alphabetic), strings(&["one"]));
    assert_eq!(split_words("été naïve", CharClass::Alphabetic), strings(&["été", "naïve"]));
}

#[test]
fn fields_are_runs_without_white_space() {
    assert_eq!(split_words("a b", CharClass::Visible), strings(&["a", "b"]));
    assert_eq!(split_words(" key\t 12  rest ", CharClass::Visible), strings(&["key", "12", "rest"]));
    assert_eq!(split_words(" \t ", CharClass::Visible), Vec::<String>::new());
}

#[test]
fn lines_of_a_text() {
    assert_eq!(split_lines(""), Vec::<String>::new());
    assert_eq!(split_lines("a b\nc d\n"), strings(&["a b", "c d"]));
    assert_eq!(split_lines("a b\nc d"), strings(&["a b", "c d"]));
    assert_eq!(split_lines("\n"), strings(&[""]));
    assert_eq!(split_lines("a\n\nb"), strings(&["a", "", "b"]));
    assert_eq!(split_lines("a\r\nb\r"), strings(&["a", "b\r"]));
    assert_eq!(split_lines("\r\n"), strings(&[""]));
}

#[test]
fn lines_agree_with_std() {
    for text in ["", "x", "x\n", "x\ny", "\n\n", "a\r\n\r\nb", "a\rb\n", "\r", "q\n\r"] {
        let expected: Vec<String> = text.lines().map(|l| l.to_string()).collect();
        assert_eq!(split_lines(text), expected);
    }
}

#[test]
fn joined_strings() {
    assert_eq!(join_strings(&strings(&[]), ","), "");
    assert_eq!(join_strings(&strings(&["a"]), ","), "a");
    assert_eq!(join_strings(&strings(&["a", "b", "c"]), ","), "a,b,c");
    assert_eq!(join_strings(&strings(&["a", "", "c"]), " - "), "a -  - c");
}

#[test]
fn substrings() {
    assert!(contains_text("pg-sherlock_holmes.txt", "sherlock"));
    assert!(contains_text("tom", "tom"));
    assert!(contains_text("anything", ""));
    assert!(contains_text("", ""));
    assert!(!contains_text("", "a"));
    assert!(!contains_text("sherloc", "sherlock"));
    assert!(!contains_text("t-o-m", "tom"));
    assert!(contains_text("xxtom", "tom"));
}

#[test]
fn prefixes() {
    assert!(starts_with("mr-worker-jobcount-1-2", "mr-worker-jobcount"));
    assert!(starts_with("abc", ""));
    assert!(starts_with("abc", "abc"));
    assert!(!starts_with("ab", "abc"));
    assert!(!starts_with("xabc", "abc"));
}

#[test]
fn order_of_strings() {
    assert!(text_before("a", "b"));
    assert!(!text_before("b", "a"));
    assert!(!text_before("a", "a"));
    assert!(text_before("", "a"));
    assert!(!text_before("", ""));
    assert!(text_before("ab", "abc"));
    assert!(text_before("Z", "a"));
    assert!(text_before("z", "é"));
}

#[test]
fn order_of_strings_agrees_with_std() {
    let samples = ["", "a", "ab", "b", "B", "é", "z", "zz", "日本", "~"];
    for x in samples {
        for y in samples {
            assert_eq!(text_before(x, y), x < y);
        }
    }
}

#[test]
fn record_at_the_root() {
    let record = mr::KeyValue { key: "k".to_string(), value: "v".to_string() };
    assert_eq!(mr::apps::wc_m("f", "k"), vec![mr::KeyValue { key: "k".to_string(), value: "1".to_string() }]);
    assert_eq!(record.key, "k");
    assert_eq!(record.value, "v");
}
