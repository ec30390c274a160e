use mr::apps::Api;
use mr::record::KeyValue;
use mr::sequential::run_sequential;
use mr::worker::InputFile;

struct Lengths;

impl Api for Lengths {
    fn map(&self, filename: &str, contents: &str) -> Vec<KeyValue> {
        contents
            .split_whitespace()
            .map(|w| KeyValue { key: w.len().to_string(), value: filename.to_string() })
            .collect()
    }

    fn reduce(&self, _key: &str, values: Vec<String>) -> String {
        values.concat()
    }
}

#[test]
fn application_of_the_caller() {
    let inputs = vec![
        InputFile { name: "x".to_string(), contents: "aa b cc".to_string() },
        InputFile { name: "y".to_string(), contents: "d".to_string() },
    ];
    let out = run_sequential(&Lengths, "lengths", &inputs);
    assert_eq!(out.path, "mr-lengths-seq");
    assert_eq!(out.contents, "1 xy\n2 xx\n");
}
