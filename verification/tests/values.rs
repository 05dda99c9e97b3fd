//! Literals, hexadecimal, text, filters, plans and reports on concrete values.

use mpy_probe::cli::action_line;
use mpy_probe::cli::build_excludes;
use mpy_probe::cli::check_local_path;
use mpy_probe::cli::default_excludes;
use mpy_probe::cli::diff_summary;
use mpy_probe::cli::entry_line;
use mpy_probe::cli::resolve_content;
use mpy_probe::cli::resolve_filter;
use mpy_probe::cli::run_target;
use mpy_probe::cli::stat_report;
use mpy_probe::cli::sync_summary;
use mpy_probe::cli::timeout_ms;
use mpy_probe::cli::LocalPath;
use mpy_probe::error::MpError;
use mpy_probe::files::is_before;
use mpy_probe::files::is_one_of;
use mpy_probe::files::FileSizes;
use mpy_probe::filter::include_lines;
use mpy_probe::filter::IncludeError;
use mpy_probe::filter::IncludeFilter;
use mpy_probe::filter::INCLUDE_FILE;
use mpy_probe::hex::parse_hex_bytes;
use mpy_probe::hex::parse_hex_string;
use mpy_probe::python::py_bytes_repr;
use mpy_probe::python::py_str_repr;
use mpy_probe::remote::compare_file;
use mpy_probe::remote::join_remote;
use mpy_probe::remote::remote_parent;
use mpy_probe::replies::parse_download;
use mpy_probe::replies::parse_info;
use mpy_probe::replies::parse_listing;
use mpy_probe::replies::parse_stat;
use mpy_probe::replies::FileStat;
use mpy_probe::scripts::build_create_script;
use mpy_probe::scripts::build_eval_script;
use mpy_probe::scripts::build_list_script;
use mpy_probe::scripts::build_mkdir_script;
use mpy_probe::scripts::build_read_script;
use mpy_probe::scripts::build_remove_script;
use mpy_probe::scripts::build_run_script;
use mpy_probe::scripts::build_stat_script;
use mpy_probe::scripts::build_upload;
use mpy_probe::serial::detect_port;
use mpy_probe::serial::ReadStep;
use mpy_probe::serial::SerialBuffer;
use mpy_probe::sync::compare_files;
use mpy_probe::sync::plan_sync;
use mpy_probe::sync::SyncAction;
use mpy_probe::sync::SyncStats;
use mpy_probe::terminal::bytes_of_key;
use mpy_probe::terminal::Key;
use mpy_probe::terminal::ReplInput;
use mpy_probe::text::is_white;
use mpy_probe::text::parse_unsigned;
use mpy_probe::text::split_lines;
use mpy_probe::text::to_decimal;
use mpy_probe::text::trim;
use mpy_probe::text::trim_end_crlf;
use mpy_probe::walk::LocalEntry;
use mpy_probe::walk::LocalWalk;

// ---------------------------------------------------------------------------
// Literals and hexadecimal
// ---------------------------------------------------------------------------

#[test]
fn py_str_repr_escapes_python_string_boundaries() {
    assert_eq!(py_str_repr("/flash/a'b\\c.py"), "'/flash/a\\'b\\\\c.py'");
    assert_eq!(py_str_repr("line\nnext"), "'line\\nnext'");
}

#[test]
fn parse_hex_bytes_round_trips_binary_data() {
    assert_eq!(
        parse_hex_bytes("000a0d5cfff0").unwrap(),
        vec![0x00, b'\n', b'\r', b'\\', 0xff, 0xf0]
    );
}

#[test]
fn parse_hex_string_handles_punctuation_in_filenames() {
    assert_eq!(
        parse_hex_string("61272c625c632e7079").unwrap(),
        "a',b\\c.py"
    );
}

#[test]
fn parse_hex_bytes_rejects_invalid_input() {
    assert!(parse_hex_bytes("abc").is_err());
    assert!(parse_hex_bytes("xx").is_err());
}

#[test]
fn str_literals_escape_every_kind_of_character() {
    assert_eq!(py_str_repr(""), "''");
    assert_eq!(py_str_repr("\r\t"), "'\\r\\t'");
    assert_eq!(py_str_repr("\u{0}\u{1f}\u{7f}\u{9f}"), "'\\x00\\x1f\\x7f\\x9f'");
    assert_eq!(py_str_repr("é→\""), "'é→\"'");
}

#[test]
fn bytes_literals_escape_what_is_not_printable() {
    assert_eq!(py_bytes_repr(b"a'\\\n\r\t ~"), "b'a\\'\\\\\\n\\r\\t ~'");
    assert_eq!(py_bytes_repr(&[0x00, 0x1f, 0x7f, 0xff]), "b'\\x00\\x1f\\x7f\\xff'");
}

#[test]
fn hex_errors_name_the_text() {
    match parse_hex_bytes(" abc ") {
        Err(MpError::Protocol(msg)) => assert_eq!(msg, "invalid hex byte string: abc"),
        other => panic!("{:?}", other),
    }
    let reason = u8::from_str_radix("zz", 16).unwrap_err().to_string();
    match parse_hex_bytes("00zz") {
        Err(MpError::Protocol(msg)) => {
            assert_eq!(msg, format!("invalid hex byte string '00zz': {}", reason))
        }
        other => panic!("{:?}", other),
    }
    assert_eq!(parse_hex_bytes(" 0A fF".replace(' ', "").as_str()).unwrap(), vec![0x0a, 0xff]);
    assert_eq!(parse_hex_bytes("+f").unwrap(), vec![u8::from_str_radix("+f", 16).unwrap()]);
    assert!(parse_hex_bytes("éé").is_err());
    assert_eq!(parse_hex_bytes("").unwrap(), Vec::<u8>::new());
}

#[test]
fn hex_strings_that_are_not_utf8_are_refused() {
    let reason = String::from_utf8(vec![0xff, 0x41]).unwrap_err().to_string();
    match parse_hex_string("ff41") {
        Err(MpError::Protocol(msg)) => {
            assert_eq!(msg, format!("invalid UTF-8 filename from device: {}", reason))
        }
        other => panic!("{:?}", other),
    }
    assert_eq!(parse_hex_string("c3a9").unwrap(), "é");
}

// ---------------------------------------------------------------------------
// Text
// ---------------------------------------------------------------------------

#[test]
fn white_space_is_that_of_unicode() {
    let mut u: u32 = 0;
    while u <= 0x10ffff {
        if let Some(c) = char::from_u32(u) {
            assert_eq!(is_white(c), c.is_whitespace(), "{:x}", u);
        }
        u += 1;
    }
}

#[test]
fn lines_end_like_those_of_std() {
    for s in ["", "\n", "a", "a\n", "a\r\nb", "a\rb\n\nc\r", "\r\n\r\n", "x\n\r"] {
        let mine: Vec<String> = split_lines(s).iter().map(|l| l.iter().collect()).collect();
        let std: Vec<String> = s.lines().map(|l| l.to_string()).collect();
        assert_eq!(mine, std, "{:?}", s);
    }
}

#[test]
fn trimming_is_that_of_std() {
    for s in ["", "  ", " a b\t", "\u{3000}x\u{a0}\n", "y"] {
        let chars: Vec<char> = s.chars().collect();
        let mine: String = trim(&chars).iter().collect();
        assert_eq!(mine, s.trim());
    }
    for s in ["", "a\r\n", "a\r\n\r\n", "a\n", "\r\n", "a\r"] {
        assert_eq!(trim_end_crlf(s), s.trim_end_matches("\r\n"));
    }
}

#[test]
fn numbers_read_and_write_like_those_of_std() {
    for s in ["", "+", "0", "007", "+5", "-1", "1_0", "18446744073709551615", "18446744073709551616", " 1"] {
        let chars: Vec<char> = s.chars().collect();
        assert_eq!(parse_unsigned(&chars, u64::MAX), s.parse::<u64>().ok(), "{:?}", s);
        assert_eq!(
            parse_unsigned(&chars, u32::MAX as u64),
            s.parse::<u32>().ok().map(u64::from),
            "{:?}",
            s
        );
    }
    for n in [0, 9, 10, 4096, u64::MAX] {
        assert_eq!(to_decimal(n), n.to_string());
    }
}

#[test]
fn error_messages_name_their_kind() {
    assert_eq!(MpError::Connection("x".to_string()).message(), "connection error: x");
    assert_eq!(MpError::Timeout("x".to_string()).message(), "timeout: x");
    assert_eq!(MpError::Protocol("x".to_string()).message(), "protocol error: x");
    assert_eq!(MpError::Filesystem("x".to_string()).message(), "filesystem error: x");
    assert_eq!(MpError::InvalidInput("x".to_string()).message(), "invalid input: x");
    let exec = |stdout: &str, stderr: &str| {
        MpError::Execution { stdout: stdout.to_string(), stderr: stderr.to_string() }.message()
    };
    assert_eq!(exec("", ""), "execution error");
    assert_eq!(exec("o", ""), "execution error\nstdout:\no");
    assert_eq!(exec("", "e"), "execution error\nstderr:\ne");
    assert_eq!(exec("o", "e"), "execution error\nstdout:\no\nstderr:\ne");
}

#[test]
fn io_errors_become_connection_errors() {
    let e = std::io::Error::new(std::io::ErrorKind::BrokenPipe, "gone");
    match MpError::from(e) {
        MpError::Connection(msg) => assert_eq!(msg, "gone"),
        other => panic!("{:?}", other),
    }
}

// ---------------------------------------------------------------------------
// Scripts and replies
// ---------------------------------------------------------------------------

#[test]
fn scripts_are_those_of_the_board() {
    assert_eq!(build_eval_script("1+1"), "print(repr(1+1))");
    assert_eq!(
        build_run_script("/a'b.py"),
        "exec(open('/a\\'b.py').read(), {'__name__':'__main__','__file__':'/a\\'b.py'})"
    );
    assert_eq!(build_create_script("/e"), "__f=open('/e','wb')\n__f.flush()\n__f.close()\n");
    assert_eq!(
        build_read_script("/f"),
        "import binascii\n__f=open('/f','rb')\nwhile True:\n  __d=__f.read(128)\n  if not __d:break\n  print(binascii.hexlify(__d).decode())\n__f.close()"
    );
    assert_eq!(
        build_list_script("/"),
        "import os,binascii\nfor __n in os.listdir('/'):\n print(binascii.hexlify(__n.encode()).decode())"
    );
    assert_eq!(build_remove_script("/x"), "import os; os.remove('/x')");
    assert_eq!(
        build_mkdir_script("/a/b"),
        "import os\np='/a/b'\nfor i in range(1,len(p.split('/'))+1):\n d='/'.join(p.split('/')[:i]) or '/'\n try: os.mkdir(d)\n except: pass"
    );
    assert_eq!(
        build_stat_script("/x"),
        "import os\ns=os.stat('/x')\nprint('mode:' + str(s[0]))\nprint('size:' + str(s[6]))\nprint('mtime:' + str(s[8]))"
    );
}

#[test]
fn an_upload_is_cut_into_batches_of_chunks() {
    assert_eq!(
        build_upload("/f", &[0x00, 0xab]),
        vec!["__f=open('/f','wb')\n__f.write(bytes.fromhex('00ab'))\n__f.flush()\n__f.close()\n"]
    );
    assert_eq!(build_upload("/f", &[]), Vec::<String>::new());
    let data = vec![7u8; 2048 + 129];
    let scripts = build_upload("/f", &data);
    assert_eq!(scripts.len(), 2);
    let first: Vec<&str> = scripts[0].lines().collect();
    assert_eq!(first.len(), 17);
    assert_eq!(first[0], "__f=open('/f','wb')");
    assert_eq!(first[16], format!("__f.write(bytes.fromhex('{}'))", "07".repeat(128)));
    let second: Vec<&str> = scripts[1].lines().collect();
    assert_eq!(second.len(), 4);
    assert_eq!(second[1], "__f.write(bytes.fromhex('07'))");
    assert_eq!(&second[2..], &["__f.flush()", "__f.close()"]);
    assert_eq!(build_upload("/f", &vec![1u8; 2048]).len(), 1);
}

#[test]
fn downloads_skip_blank_lines_and_stop_at_the_first_error() {
    assert_eq!(parse_download("0001\r\n\r\n  \r\nff\r\n").unwrap(), vec![0, 1, 0xff]);
    assert_eq!(parse_download("").unwrap(), Vec::<u8>::new());
    assert!(parse_download("00\r\nTraceback\r\n").is_err());
}

#[test]
fn listings_give_the_names_in_their_order() {
    assert_eq!(parse_listing("622e7079\r\n612c27\r\n").unwrap(), vec!["b.py", "a,'"]);
    assert_eq!(parse_listing("\r\n").unwrap(), Vec::<String>::new());
    assert!(parse_listing("6\r\n").is_err());
    assert!(parse_listing("ff\r\n").is_err());
}

#[test]
fn device_info_is_read_line_by_line() {
    let info = parse_info(
        "version:3.4.0; MicroPython v1.20.0 on 2025-12-23\r\nplatform:mimxrt\r\nmachine:a:b\r\nmem_free:122784\r\nfs_total:8388608\r\nfs_free:x\r\nnoise\r\nother:1\r\n",
    );
    assert_eq!(info.version, "3.4.0; MicroPython v1.20.0 on 2025-12-23");
    assert_eq!(info.platform, "mimxrt");
    assert_eq!(info.machine, "a:b");
    assert_eq!(info.mem_free, Some(122784));
    assert_eq!(info.fs_total, Some(8388608));
    assert_eq!(info.fs_free, None);
}

#[test]
fn a_status_is_read_line_by_line() {
    let s = parse_stat("/flash/boot.py", "mode:32768\r\nsize:503\r\nmtime:1776009983\r\n");
    assert_eq!((s.path.as_str(), s.is_dir, s.size, s.mtime), ("/flash/boot.py", false, 503, Some(1776009983)));
    let d = parse_stat("/lib", "mode:16384\r\nsize:0\r\nmtime:0\r\n");
    assert_eq!((d.is_dir, d.size, d.mtime), (true, 0, None));
    let bad = parse_stat("/x", "mode:-1\r\nsize:many\r\n");
    assert_eq!((bad.is_dir, bad.size, bad.mtime), (false, 0, None));
}

// ---------------------------------------------------------------------------
// Filters
// ---------------------------------------------------------------------------

#[test]
fn test_simple_extension() {
    let filter = IncludeFilter::parse("*.py\n").ok().unwrap();
    assert!(filter.is_match("main.py"));
    assert!(filter.is_match("src/main.py"));
    assert!(filter.is_match("src/sub/main.py"));
    assert!(!filter.is_match("main.js"));
}

#[test]
fn test_specific_path() {
    let filter = IncludeFilter::parse("src/*.py\n").ok().unwrap();
    assert!(filter.is_match("src/main.py"));
    assert!(!filter.is_match("main.py"));
    assert!(!filter.is_match("src/sub/main.py"));
}

#[test]
fn test_recursive_glob() {
    let filter = IncludeFilter::parse("src/**/*.py\n").ok().unwrap();
    assert!(filter.is_match("src/main.py"));
    assert!(filter.is_match("src/sub/main.py"));
    assert!(!filter.is_match("main.py"));
}

#[test]
fn test_comments_and_blanks() {
    let filter = IncludeFilter::parse("# comment\n\n*.py\n  # another\n").ok().unwrap();
    assert!(filter.is_match("main.py"));
}

#[test]
fn test_multiple_patterns() {
    let filter = IncludeFilter::parse("*.py\n*.json\nconfig/*\n").ok().unwrap();
    assert!(filter.is_match("main.py"));
    assert!(filter.is_match("data.json"));
    assert!(filter.is_match("config/settings.ini"));
    assert!(!filter.is_match("README.md"));
}

#[test]
fn test_no_patterns_errors() {
    assert!(IncludeFilter::parse("# only comments\n\n").is_err());
}

#[test]
fn include_lines_lose_comments_and_gain_a_prefix() {
    let found: Vec<(String, String)> = include_lines("*.py # code\r\n# none\n\n  src/*.txt\t\n")
        .into_iter()
        .map(|l| (l.line, l.pattern))
        .collect();
    assert_eq!(
        found,
        vec![
            ("*.py".to_string(), "**/*.py".to_string()),
            ("src/*.txt".to_string(), "src/*.txt".to_string()),
        ]
    );
    assert_eq!(INCLUDE_FILE, ".mpyinclude");
}

#[test]
fn include_errors_name_the_line() {
    match IncludeFilter::parse("*.py\na[b # bad\nc[d\n") {
        Err(e) => {
            let reason = globset::GlobBuilder::new("**/a[b")
                .literal_separator(true)
                .build()
                .unwrap_err()
                .to_string();
            assert_eq!(e.message(), format!("invalid glob pattern 'a[b': {}", reason));
        }
        Ok(_) => panic!("a class that is not closed"),
    }
    match IncludeFilter::parse("\n") {
        Err(e) => assert_eq!(e.message(), ".mpyinclude contains no valid patterns"),
        Ok(_) => panic!("no patterns"),
    }
    let e = IncludeError::Matcher { reason: "too big".to_string() };
    assert_eq!(e.message(), "failed to build glob matcher: too big");
}

#[test]
fn comments_and_blank_lines_make_no_difference() {
    let lean: Vec<String> = include_lines("a\nb/c\n").into_iter().map(|l| l.pattern).collect();
    let wordy: Vec<String> =
        include_lines("#x\na#y\n\n   \nb/c   # z # w\n#\n").into_iter().map(|l| l.pattern).collect();
    assert_eq!(lean, wordy);
    assert_eq!(lean, vec!["**/a", "b/c"]);
}

fn braced(n: usize) -> String {
    format!("{}a{}", "{".repeat(n), "}".repeat(n))
}

#[test]
fn alternatives_nest_only_so_deep() {
    let filter = IncludeFilter::parse("{a,{b,c}}.py").ok().unwrap();
    assert!(filter.is_match("src/c.py"));
    match IncludeFilter::parse(&braced(1000)) {
        Err(IncludeError::Matcher { .. }) => {}
        Err(e) => panic!("{}", e.message()),
        Ok(_) => panic!("a regular expression that is nested too deep"),
    }
    match IncludeFilter::parse(&format!("*.py\n{}\n", braced(1001))) {
        Err(e) => assert_eq!(
            e.message(),
            format!("alternatives nested too deep in glob pattern '{}'", braced(1001))
        ),
        Ok(_) => panic!("nested too deep"),
    }
    let e = IncludeError::TooLong;
    assert_eq!(e.message(), ".mpyinclude contains a pattern that is too long");
}

#[test]
fn only_open_alternatives_count_as_nested() {
    let filter = IncludeFilter::parse(&"{a}".repeat(1001)).ok().unwrap();
    assert!(filter.is_match(&"a".repeat(1001)));
    let filter = IncludeFilter::parse(&format!("[{}]", "{".repeat(1001))).ok().unwrap();
    assert!(filter.is_match("{"));
    assert!(matches!(
        IncludeFilter::parse(&"{[}]".repeat(1001)),
        Err(IncludeError::TooDeep { .. })
    ));
    assert!(matches!(
        IncludeFilter::parse(&"{[!}]".repeat(1001)),
        Err(IncludeError::TooDeep { .. })
    ));
    assert!(matches!(
        IncludeFilter::parse(&"{[]}]".repeat(1001)),
        Err(IncludeError::TooDeep { .. })
    ));
    let nested = format!("{}r{}", "p{q,".repeat(64), "}".repeat(64));
    let filter = IncludeFilter::parse(&nested).ok().unwrap();
    assert!(filter.is_match("ppq"));
    assert!(filter.is_match(&format!("{}r", "p".repeat(64))));
}

#[test]
fn short_accepted_patterns_make_a_filter() {
    let many = "{a,b}[!x-z]é\n".repeat(500);
    let filter = IncludeFilter::parse(&many).ok().unwrap();
    assert!(filter.is_match("d/bwé"));
    assert!(!filter.is_match("d/bxé"));
    for content in ["[a-é]", "[]-]", "[!]a-]x", "{}", "a{,b}", "[&&][~~][--]", "{{},{a}}"] {
        assert!(IncludeFilter::parse(content).is_ok(), "{}", content);
    }
}

#[test]
fn any_number_of_patterns_is_put_together() {
    let filter = IncludeFilter::parse(&"a\n".repeat(60_000)).ok().unwrap();
    assert!(filter.is_match("x/a"));
    assert!(!filter.is_match("x/b"));
    let dirs: String = (0..60_000).map(|i| format!("d{}/**\n**/e{}/f\n", i, i)).collect();
    let filter = IncludeFilter::parse(&format!("{}*.py\n", dirs)).ok().unwrap();
    for i in [0, 1, 20_000, 40_001, 59_999] {
        assert!(filter.is_match(&format!("d{}/x/y", i)));
        assert!(filter.is_match(&format!("x/e{}/f", i)));
    }
    assert!(!filter.is_match("d60000/x"));
    assert!(!filter.is_match("e60000/f"));
    assert!(filter.is_match("z/main.py"));
}

#[test]
fn a_backslash_leaves_the_other_patterns_alone() {
    let filter = IncludeFilter::parse("a\\[b\n*.py\n").ok().unwrap();
    assert!(filter.is_match("x/main.py"));
    assert!(!filter.is_match("x/main.js"));
}

#[test]
fn plain_patterns_are_accepted() {
    for content in ["main.py", "lib/util/a b.py", "main.py\nboot.py\nlib/x.mpy\n", "é.txt"] {
        assert!(IncludeFilter::parse(content).is_ok(), "{}", content);
    }
    let many: String = (0..500).map(|i| format!("file{}.py\n", i)).collect();
    let filter = IncludeFilter::parse(&many).ok().unwrap();
    assert!(filter.is_match("x/file499.py"));
    assert!(!filter.is_match("x/file500.py"));
}

#[test]
fn short_patterns_without_brackets_are_accepted() {
    for content in ["*.py", "src/*.py", "src/**/*.py\n", "config/*", "**", "a**b", "***/?/**\n?*", "***"] {
        assert!(IncludeFilter::parse(content).is_ok(), "{}", content);
    }
    for content in ["?/\n".repeat(4096), "x?y*z\n".repeat(1024), "*?".repeat(4094), "/**/*".repeat(1638)] {
        assert!(IncludeFilter::parse(&content).is_ok());
    }
    let filter = IncludeFilter::parse("src/?a*.py\n").ok().unwrap();
    assert!(filter.is_match("src/main.py"));
    assert!(!filter.is_match("src/a.py"));
}

#[test]
fn cleaned_lines_make_the_same_filter() {
    let wordy = "  # head\n*.py   # code\r\n\n\tdata/*.json \n";
    let lean = "*.py\ndata/*.json\n";
    let spelled = "**/*.py\ndata/*.json";
    for content in [wordy, lean, spelled] {
        let patterns: Vec<String> = include_lines(content).into_iter().map(|l| l.pattern).collect();
        assert_eq!(patterns, vec!["**/*.py", "data/*.json"]);
        let filter = IncludeFilter::parse(content).ok().unwrap();
        assert!(filter.is_match("x/main.py"));
        assert!(filter.is_match("data/a.json"));
        assert!(!filter.is_match("x/data/a.json"));
    }
    for content in ["a[b\n", "# head\n a[b # tail\n", "**/a[b\n"] {
        assert!(IncludeFilter::parse(content).is_err());
    }
}

// ---------------------------------------------------------------------------
// Files, plans and comparisons
// ---------------------------------------------------------------------------

fn sizes(files: &[(&str, u64)]) -> FileSizes {
    let mut all = FileSizes::new();
    for (path, size) in files {
        all.insert(path, *size);
    }
    all
}

fn actions(stats: &SyncStats) -> Vec<(String, String, u64)> {
    stats.actions.iter().map(|a| (a.action.clone(), a.path.clone(), a.size)).collect()
}

#[test]
fn a_file_takes_the_place_of_its_twin() {
    let all = sizes(&[("a", 1), ("b", 2), ("a", 3)]);
    assert_eq!(all.len(), 2);
    assert_eq!(all.get("a"), Some(3));
    assert_eq!(all.get("b"), Some(2));
    assert_eq!(all.get("c"), None);
    assert_eq!((all.file(0).path.as_str(), all.file(0).size), ("a", 3));
}

#[test]
fn paths_are_ordered_like_strings() {
    let all = ["", "a", "a/b", "ab", "b", "é", "z", "A", "\u{ffff}", "\u{10000}"];
    for x in all {
        for y in all {
            assert_eq!(is_before(x, y), x < y, "{:?} {:?}", x, y);
        }
    }
    assert!(is_one_of(&["x", "y"], "y"));
    assert!(!is_one_of(&["x", "y"], "z"));
}

#[test]
fn a_sync_uploads_what_differs_and_deletes_the_rest() {
    let local = sizes(&[("same", 1), ("new", 2), ("changed", 3)]);
    let remote = sizes(&[("old", 9), ("changed", 4), ("same", 1)]);
    let stats = plan_sync(&local, &remote);
    assert_eq!(
        actions(&stats),
        vec![
            ("upload".to_string(), "new".to_string(), 2),
            ("upload".to_string(), "changed".to_string(), 3),
            ("delete".to_string(), "old".to_string(), 9),
        ]
    );
    assert_eq!((stats.uploaded, stats.downloaded, stats.deleted), (2, 0, 1));
}

#[test]
fn a_second_sync_finds_nothing_to_do() {
    let local = sizes(&[("a", 1), ("b/c", 2)]);
    let remote = sizes(&[("b/c", 5), ("x", 7)]);
    let mut after = FileSizes::new();
    let stats = plan_sync(&local, &remote);
    for i in 0..remote.len() {
        let f = remote.file(i);
        if !stats.actions.iter().any(|a| a.action == "delete" && a.path == f.path) {
            after.insert(&f.path, f.size);
        }
    }
    for a in &stats.actions {
        if a.action == "upload" {
            after.insert(&a.path, a.size);
        }
    }
    assert_eq!(plan_sync(&local, &after).actions.len(), 0);
    assert_eq!(after.len(), local.len());
    assert_eq!(SyncStats::default().actions.len(), 0);
}

#[test]
fn a_comparison_is_sorted_and_counted() {
    let local = sizes(&[("z", 1), ("b", 2), ("m", 3)]);
    let remote = sizes(&[("y", 4), ("b", 5), ("a", 6), ("m", 3)]);
    let d = compare_files(&local, &remote);
    let found: Vec<(&str, &str, Option<u64>, Option<u64>)> = d
        .entries
        .iter()
        .map(|e| (e.path.as_str(), e.status.as_str(), e.local_size, e.remote_size))
        .collect();
    assert_eq!(
        found,
        vec![
            ("a", "deleted", None, Some(6)),
            ("b", "changed", Some(2), Some(5)),
            ("y", "deleted", None, Some(4)),
            ("z", "new", Some(1), None),
        ]
    );
    assert_eq!((d.new_count, d.changed_count, d.deleted_count), (1, 1, 2));
    let stats = plan_sync(&local, &remote);
    assert_eq!(stats.uploaded, d.new_count + d.changed_count);
    assert_eq!(stats.deleted, d.deleted_count);
}

fn status(size: u64) -> Result<FileStat, MpError> {
    Ok(FileStat { path: "/r".to_string(), is_dir: false, size, mtime: None })
}

#[test]
fn a_single_file_is_compared_by_size() {
    let same = compare_file("f.py", 5, &status(5));
    assert_eq!((same.entries.len(), same.new_count, same.changed_count), (0, 0, 0));
    let changed = compare_file("f.py", 5, &status(6));
    assert_eq!(changed.entries[0].status, "changed");
    assert_eq!(changed.entries[0].remote_size, Some(6));
    assert_eq!((changed.new_count, changed.changed_count), (0, 1));
    let missing = compare_file("f.py", 5, &Err(MpError::Protocol("x".to_string())));
    assert_eq!(missing.entries[0].status, "new");
    assert_eq!(missing.entries[0].path, "f.py");
    assert_eq!((missing.new_count, missing.changed_count), (1, 0));
}

#[test]
fn remote_paths_join_and_part() {
    assert_eq!(join_remote("/flash", "a.py"), "/flash/a.py");
    assert_eq!(join_remote("/flash//", "a.py"), "/flash/a.py");
    assert_eq!(join_remote("/", "a.py"), "/a.py");
    for p in ["/flash/a.py", "/a.py", "/flash//a", "/flash/./b/x", "/flash/./x", "./x", "/./x", "a/b", "/a/b/c"] {
        let std = std::path::Path::new(p).parent().unwrap().to_str().unwrap().to_string();
        assert_eq!(remote_parent(p), Some(std), "{}", p);
    }
    assert_eq!(remote_parent("a"), None);
}

fn entry(name: &str, is_dir: bool) -> LocalEntry {
    LocalEntry { name: name.to_string(), is_dir }
}

#[test]
fn a_local_walk_keeps_to_excludes_and_filter() {
    let filter = IncludeFilter::parse("*.py\n").ok().unwrap();
    let mut walk = LocalWalk::new();
    assert_eq!(walk.next_dir(), Some(String::new()));
    walk.listed(
        &[entry("main.py", false), entry("x.txt", false), entry(".git", true), entry("lib", true)],
        &[".git"],
        Some(&filter),
    );
    assert_eq!(walk.next_dir(), Some("lib".to_string()));
    walk.listed(&[entry("a.py", false), entry("sub", true)], &[".git"], Some(&filter));
    assert_eq!(walk.next_dir(), Some("lib/sub".to_string()));
    walk.listed(&[], &[".git"], Some(&filter));
    assert_eq!(walk.next_dir(), None);
    assert_eq!(walk.into_paths(), vec!["main.py", "lib/a.py"]);
}

// ---------------------------------------------------------------------------
// Serial reads and ports
// ---------------------------------------------------------------------------

#[test]
fn exact_reads_take_what_they_want_and_keep_the_rest() {
    let mut buffer = SerialBuffer::new();
    assert!(buffer.is_empty());
    buffer.unread(b"cd");
    buffer.unread(b"ab");
    let mut read = buffer.begin_exact(6);
    assert_eq!(read.step(0, 10), ReadStep::Read);
    assert_eq!(read.step(10, 10), ReadStep::TimedOut);
    match read.timeout_error() {
        MpError::Timeout(msg) => assert_eq!(msg, "read_exact: wanted 6 bytes, got 4"),
        other => panic!("{:?}", other),
    }
    buffer.feed_exact(&mut read, b"e");
    buffer.feed_exact(&mut read, b"fgh");
    assert_eq!(read.step(99, 10), ReadStep::Done);
    assert_eq!(read.finish(), b"abcdef");
    assert_eq!(buffer.take_all(), b"gh");
    buffer.unread(b"xyz");
    let read = buffer.begin_exact(2);
    assert_eq!(read.finish(), b"xy");
    assert!(!buffer.is_empty());
    buffer.clear();
    assert!(buffer.is_empty());
}

#[test]
fn reads_go_on_with_the_stream() {
    let mut buffer = SerialBuffer::new();
    buffer.unread(b"ab");
    let none = buffer.begin_exact(0);
    assert_eq!(none.step(9, 0), ReadStep::Done);
    assert_eq!(none.finish(), b"");
    let mut read = buffer.begin_exact(7);
    for chunk in [&b"c"[..], b"", b"de", b"fghij"] {
        buffer.feed_exact(&mut read, chunk);
    }
    assert_eq!(read.finish(), b"abcdefg");
    let mut read = buffer.begin_exact(5);
    buffer.feed_exact(&mut read, b"klm");
    assert_eq!(read.finish(), b"hijkl");
    assert_eq!(buffer.take_all(), b"m");
}

#[test]
fn until_reads_stop_at_the_pattern() {
    let mut buffer = SerialBuffer::new();
    buffer.unread(b"ab");
    let mut read = buffer.begin_until(b"bc");
    assert_eq!(read.step(0, 5), ReadStep::Read);
    assert_eq!(read.step(5, 5), ReadStep::TimedOut);
    read.feed(b'c');
    assert_eq!(read.step(5, 5), ReadStep::Done);
    assert_eq!(read.finish(), b"abc");
    assert!(buffer.is_empty());
    buffer.unread(b"xx>yy");
    let read = buffer.begin_until(b">");
    assert_eq!(read.step(0, 0), ReadStep::Done);
    assert_eq!(read.finish(), b"xx>yy");
}

#[test]
fn until_errors_list_the_pattern() {
    let mut buffer = SerialBuffer::new();
    let read = buffer.begin_until(b"OK>");
    match read.timeout_error() {
        MpError::Timeout(msg) => {
            assert_eq!(msg, format!("read_until: pattern {:?} not found within timeout", b"OK>"))
        }
        other => panic!("{:?}", other),
    }
    match buffer.begin_until(b"").timeout_error() {
        MpError::Timeout(msg) => assert_eq!(msg, "read_until: pattern [] not found within timeout"),
        other => panic!("{:?}", other),
    }
}

fn ports(names: &[&str]) -> Vec<String> {
    names.iter().map(|n| n.to_string()).collect()
}

#[test]
fn the_first_candidate_is_the_port() {
    assert_eq!(
        detect_port(&ports(&["/dev/ttyS0", "/dev/ttyACM0"])).unwrap(),
        "/dev/ttyACM0"
    );
    match detect_port(&ports(&["/dev/ttyS0"])) {
        Err(e) => assert_eq!(
            e.message(),
            "connection error: no MicroPython device found (no ttyACM/ttyUSB ports)"
        ),
        Ok(p) => panic!("{}", p),
    }
    assert!(detect_port(&[]).is_err());
    assert_eq!(
        detect_port(&ports(&["x", "/dev/ttyUSB1", "/dev/ttyACM0", "/dev/ttyUSB0"])).unwrap(),
        "/dev/ttyUSB1"
    );
}

// ---------------------------------------------------------------------------
// Keys
// ---------------------------------------------------------------------------

fn plain(c: char) -> Key {
    Key::Char { c, control: false }
}

fn control(c: char) -> Key {
    Key::Char { c, control: true }
}

#[test]
fn keys_send_their_bytes() {
    assert_eq!(bytes_of_key(plain('a')), b"a");
    assert_eq!(bytes_of_key(plain('é')), vec![0xe9]);
    assert_eq!(bytes_of_key(control('a')), vec![1]);
    assert_eq!(bytes_of_key(control('Z')), vec![26]);
    assert_eq!(bytes_of_key(control('1')), Vec::<u8>::new());
    assert_eq!(bytes_of_key(Key::Enter), b"\r");
    assert_eq!(bytes_of_key(Key::Backspace), vec![8]);
    assert_eq!(bytes_of_key(Key::Tab), vec![9]);
    assert_eq!(bytes_of_key(Key::Esc), vec![0x1b]);
    assert_eq!(bytes_of_key(Key::Up), b"\x1b[A");
    assert_eq!(bytes_of_key(Key::Down), b"\x1b[B");
    assert_eq!(bytes_of_key(Key::Right), b"\x1b[C");
    assert_eq!(bytes_of_key(Key::Left), b"\x1b[D");
    assert_eq!(bytes_of_key(Key::Home), b"\x1b[H");
    assert_eq!(bytes_of_key(Key::End), b"\x1b[F");
    assert_eq!(bytes_of_key(Key::Delete), b"\x1b[3~");
    assert_eq!(bytes_of_key(Key::PageUp), b"\x1b[5~");
    assert_eq!(bytes_of_key(Key::PageDown), b"\x1b[6~");
    assert_eq!(bytes_of_key(Key::Other), Vec::<u8>::new());
}

#[test]
fn the_repl_is_left_by_control_keys_and_exit() {
    let mut input = ReplInput::new();
    assert!(input.press(control('d')));
    assert!(input.press(control('c')));
    assert!(!input.press(control('D')));
    for c in "exit(x".chars() {
        assert!(!input.press(plain(c)));
    }
    assert!(!input.press(Key::Backspace));
    assert!(!input.press(plain(')')));
    assert!(!input.press(Key::Up));
    assert!(input.press(Key::Enter));
    assert!(!input.press(Key::Enter));
    for c in " exit()".chars() {
        assert!(!input.press(plain(c)));
    }
    assert!(!input.press(Key::Enter));
    assert!(!input.press(Key::Backspace));
}

// ---------------------------------------------------------------------------
// The command line
// ---------------------------------------------------------------------------

#[test]
fn excludes_of_the_user_count_without_a_filter_only() {
    let user = vec!["build".to_string()];
    let defaults = vec![".git", "__pycache__", ".DS_Store", "node_modules", ".vscode", ".idea"];
    assert_eq!(default_excludes(), defaults);
    let mut both = defaults.clone();
    both.push("build");
    assert_eq!(build_excludes(&user), both);
    let with = resolve_filter(true, &user, false);
    assert_eq!((with.names, with.warn), (default_excludes(), true));
    assert!(!resolve_filter(true, &user, true).warn);
    assert!(!resolve_filter(true, &[], false).warn);
    let without = resolve_filter(false, &user, false);
    assert_eq!((without.names, without.warn), (build_excludes(&user), false));
}

#[test]
fn the_include_file_decides_what_counts() {
    let user = vec!["build".to_string()];
    let (excludes, filter) = resolve_content(None, &user, false).ok().unwrap();
    assert_eq!((excludes.names, excludes.warn), (build_excludes(&user), false));
    assert!(filter.is_none());
    let (excludes, filter) = resolve_content(Some("*.py # code\n"), &user, false).ok().unwrap();
    assert_eq!((excludes.names, excludes.warn), (default_excludes(), true));
    let filter = filter.unwrap();
    assert!(filter.is_match("x/a.py"));
    assert!(!filter.is_match("x/a.js"));
    assert!(!resolve_content(Some("*.py"), &user, true).ok().unwrap().0.warn);
    match resolve_content(Some("# nothing\n"), &user, false) {
        Err(e) => assert_eq!(e.message(), ".mpyinclude contains no valid patterns"),
        Ok(_) => panic!("no patterns"),
    }
    assert!(matches!(
        resolve_content(Some("a[b"), &[], true),
        Err(IncludeError::InvalidPattern { .. })
    ));
}

#[test]
fn missing_local_paths_are_invalid_input() {
    let message = |want: LocalPath, found: bool, is_dir: bool| match check_local_path(want, "x/y", found, is_dir) {
        Ok(()) => String::new(),
        Err(MpError::InvalidInput(msg)) => msg,
        Err(other) => panic!("{:?}", other),
    };
    assert_eq!(message(LocalPath::File, false, false), "file not found: x/y");
    assert_eq!(message(LocalPath::File, true, false), "");
    assert_eq!(message(LocalPath::Directory, false, false), "directory not found: x/y");
    assert_eq!(message(LocalPath::Directory, true, false), "directory not found: x/y");
    assert_eq!(message(LocalPath::Directory, true, true), "");
    assert_eq!(message(LocalPath::Any, false, false), "path not found: x/y");
    assert_eq!(message(LocalPath::Any, true, true), "");
}

#[test]
fn timeouts_and_targets() {
    assert_eq!(timeout_ms(10), 10_000);
    assert_eq!(timeout_ms(u64::MAX), u64::MAX);
    assert_eq!(timeout_ms(u64::MAX / 1000), u64::MAX / 1000 * 1000);
    assert_eq!(run_target(Some("main.py")), "/flash/main.py");
    assert_eq!(run_target(None), "/flash/__run.py");
}

fn action(kind: &str) -> SyncAction {
    SyncAction { path: "lib/a.py".to_string(), action: kind.to_string(), size: 42 }
}

#[test]
fn sync_reports() {
    assert_eq!(action_line(&action("upload"), false).unwrap(), "  + lib/a.py (42 bytes)");
    assert_eq!(action_line(&action("upload"), true).unwrap(), "  + lib/a.py (42 bytes, would upload)");
    assert_eq!(action_line(&action("delete"), false).unwrap(), "  - lib/a.py");
    assert_eq!(action_line(&action("delete"), true).unwrap(), "  - lib/a.py (would delete)");
    assert_eq!(action_line(&action("other"), true), None);
    let stats = plan_sync(&sizes(&[("a", 1), ("b", 1)]), &sizes(&[("c", 1)]));
    assert_eq!(sync_summary(&stats, true), "Dry run — 2 would upload, 1 would delete");
    assert_eq!(sync_summary(&stats, false), "Sync complete: 2 uploaded, 1 deleted");
}

#[test]
fn diff_and_status_reports() {
    let d = compare_files(&sizes(&[("a", 1), ("b", 2)]), &sizes(&[("b", 3), ("c", 4)]));
    let lines: Vec<String> = d.entries.iter().filter_map(entry_line).collect();
    assert_eq!(
        lines,
        vec!["+ a (local: 1 bytes)", "~ b (local: 2 → remote: 3 bytes)", "- c (remote: 4 bytes)"]
    );
    assert_eq!(diff_summary(&d), "\n1 new, 1 changed, 1 deleted");
    let none = compare_files(&FileSizes::new(), &FileSizes::new());
    assert_eq!(diff_summary(&none), "No differences — local and remote are in sync.");
    let mut s = parse_stat("/f", "mode:32768\nsize:5\nmtime:7\n");
    assert_eq!(stat_report(&s), "path:  /f\ntype:  file\nsize:  5 bytes\nmtime: 7\n");
    s.is_dir = true;
    s.mtime = None;
    assert_eq!(stat_report(&s), "path:  /f\ntype:  directory\nsize:  5 bytes\n");
}
