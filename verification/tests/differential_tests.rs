use dexopt_analyzer::dexopt::Analyzer;
use dexopt_analyzer::package::Package;
use regex::Regex;
use std::collections::HashMap;

/// A small deterministic generator of token sequences.
struct Source {
    state: u64,
}

impl Source {
    fn next(&mut self, bound: usize) -> usize {
        self.state = self.state.wrapping_mul(6364136223846793005).wrapping_add(1442695040888963407);
        ((self.state >> 33) as usize) % bound
    }

    fn text(&mut self, tokens: &[&str], max_tokens: usize) -> String {
        let n = self.next(max_tokens + 1);
        let mut out = String::new();
        for _ in 0..n {
            out.push_str(tokens[self.next(tokens.len())]);
        }
        out
    }
}

const DUMP_TOKENS: [&str; 28] = [
    "[", "]", "com.a", "com.b", " ", "=", "arm64:", "arm:", "status=", "filter=", "speed",
    "verify", "\n", "\n", "\n", "\r\n", "\t", "x", "[com.a]\n", "[com.b]\n", "\u{a0}", "\u{e9}",
    ".", "_", "-", "\u{3000}", "arm", ":",
];

const LIST_TOKENS: [&str; 18] = [
    "package:", "package:", "/data/app/", "base.apk", "=", "=", "com.a", "com.b", "com", ".",
    " ", "\n", "\n", "\r\n", "\t", "\u{e9}", "Z", "\u{2003}",
];

const LABEL_TOKENS: [&str; 16] = [
    "com", ".", "example", "_", " ", "My", "App", "\n", "\r", "\t", "-", "\u{e9}", "2", "\u{b2}",
    "!", "\u{a0}",
];

const BADGING_TOKENS: [&str; 12] = [
    "application-label:'", "application-label:'", "application-label", "'", "'", "My App", "\n",
    "\n", " ", "\r\n", ":", "x",
];

fn dump_by_std(dump: &str) -> HashMap<String, Vec<(String, String)>> {
    let marker = Regex::new(r"(arm64:|arm:)").unwrap();
    let token = Regex::new(r"\b(?:status|filter)=([^]\s]+)").unwrap();
    let mut records: HashMap<String, Vec<(String, String)>> = HashMap::new();
    let mut current: Option<String> = None;
    for line in dump.lines() {
        let trimmed = line.trim();
        if trimmed.is_empty() {
            continue;
        }
        if trimmed.starts_with('[')
            && trimmed.ends_with(']')
            && !trimmed.contains(' ')
            && !trimmed.contains('=')
        {
            current = Some(trimmed[1..trimmed.len() - 1].to_string());
        } else if let Some(ref pkg) = current {
            if marker.is_match(trimmed) {
                let status = token
                    .captures(trimmed)
                    .and_then(|c| c.get(1))
                    .map(|m| m.as_str().to_string())
                    .unwrap_or_else(|| "unknown".to_string());
                records.entry(pkg.clone()).or_default().push((trimmed.to_string(), status));
            }
        }
    }
    records
}

fn list_by_std(raw: &str) -> Vec<(String, String)> {
    let mut list = Vec::new();
    for line in raw.lines() {
        if let Some(p) = line.trim().strip_prefix("package:") {
            if let Some((path, name)) = p.rsplit_once('=') {
                list.push((name.trim().to_string(), path.trim().to_string()));
            }
        }
    }
    list.sort_by(|a, b| a.0.cmp(&b.0));
    list
}

fn label_by_std(raw: &str, name: &str) -> Option<String> {
    let clean = raw.trim().replace(['\r', '\n'], " ");
    if clean.is_empty() {
        return None;
    }
    let is_class_name = clean.contains('.') && !clean.contains(' ') && clean != name;
    let looks_like_class = clean.chars().all(|c: char| c.is_alphanumeric() || c == '.' || c == '_');
    if !is_class_name || !looks_like_class {
        Some(clean)
    } else {
        None
    }
}

fn badging_by_std(output: &str) -> Option<String> {
    for line in output.lines() {
        let trimmed = line.trim();
        if let Some(label) = trimmed.strip_prefix("application-label:'") {
            if let Some(end) = label.find('\'') {
                return Some(label[..end].to_string());
            }
        }
    }
    None
}

#[test]
fn dumps_read_as_std_and_regex_read_them() {
    let mut source = Source { state: 7 };
    for _ in 0..3000 {
        let dump = source.text(&DUMP_TOKENS, 40);
        let expected = dump_by_std(&dump);
        let got = match Analyzer::new(&dump) {
            Ok(a) => a,
            Err(e) => panic!("{}", e.message()),
        };
        for (pkg, records) in &expected {
            let found: Vec<(String, String)> = got
                .get_info(pkg)
                .map(|l| l.iter().map(|i| (i.raw_line.clone(), i.status.clone())).collect())
                .unwrap_or_default();
            assert_eq!(&found, records, "{:?} in {:?}", pkg, dump);
        }
        for pkg in ["com.a", "com.b", "", "x", "com.acom.b", "arm", "com.a]", "[com.a"] {
            assert_eq!(
                got.get_info(pkg).is_some(),
                expected.contains_key(pkg),
                "{:?} in {:?}",
                pkg,
                dump
            );
        }
    }
}

#[test]
fn listings_read_as_std_reads_them() {
    let mut source = Source { state: 11 };
    for _ in 0..3000 {
        let raw = source.text(&LIST_TOKENS, 40);
        let got: Vec<(String, String)> =
            Package::parse_list(&raw).into_iter().map(|p| (p.name, p.path)).collect();
        assert_eq!(got, list_by_std(&raw), "{:?}", raw);
    }
}

#[test]
fn labels_are_accepted_as_std_accepts_them() {
    let mut source = Source { state: 13 };
    let names = ["com.example", "com.example.App", "My App", ""];
    for _ in 0..3000 {
        let raw = source.text(&LABEL_TOKENS, 8);
        for name in names {
            let pkg = Package { name: name.to_string(), path: String::new() };
            assert_eq!(pkg.accept_label(Some(&raw)), label_by_std(&raw, name), "{:?}", raw);
        }
    }
}

#[test]
fn badging_output_reads_as_std_reads_it() {
    let mut source = Source { state: 17 };
    for _ in 0..3000 {
        let output = source.text(&BADGING_TOKENS, 12);
        assert_eq!(Package::label_from_badging(&output), badging_by_std(&output), "{:?}", output);
    }
}
