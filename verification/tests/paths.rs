use std::path::Path;

use batch_transcode::path::{extension, file_name, output_path, parent_dir};
use batch_transcode::task::{plan_tasks, ConversionTask};
use batch_transcode::text::{chars_of, replace_all, starts_at, string_of};

fn replace(s: &str, pat: &str, with: &str) -> String {
    string_of(&replace_all(&chars_of(s), &chars_of(pat), &chars_of(with)))
}

#[test]
fn chars_round_trip() {
    assert_eq!(chars_of("a/ü.wav"), vec!['a', '/', 'ü', '.', 'w', 'a', 'v']);
    assert_eq!(string_of(&['o', 'u', 't']), "out");
    assert_eq!(string_of(&chars_of("in/sub/b.flac")), "in/sub/b.flac");
    assert_eq!(chars_of(""), Vec::<char>::new());
}

#[test]
fn starts_at_finds_the_pattern_only_where_it_stands() {
    let s = chars_of("in/main");
    let pat = chars_of("in");
    assert!(starts_at(&s, &pat, 0));
    assert!(!starts_at(&s, &pat, 1));
    assert!(starts_at(&s, &pat, 5));
    assert!(!starts_at(&s, &pat, 6));
    assert!(!starts_at(&s, &pat, 7));
    assert!(starts_at(&s, &[], 7));
}

#[test]
fn replace_all_replaces_every_occurrence() {
    assert_eq!(replace("in/a.wav", "in", "out"), "out/a.wav");
    assert_eq!(replace("in/main/in.wav", "in", "out"), "out/maout/out.wav");
    assert_eq!(replace("aaa", "aa", "b"), "ba");
    assert_eq!(replace("abc", "x", "y"), "abc");
    assert_eq!(replace("", "x", "y"), "");
    assert_eq!(replace("abc", "abcd", "y"), "abc");
    assert_eq!(replace("abab", "ab", ""), "");
}

#[test]
fn replace_all_with_an_empty_pattern() {
    assert_eq!(replace("abc", "", "X"), "XaXbXcX");
    assert_eq!(replace("", "", "X"), "X");
}

#[test]
fn replace_all_agrees_with_the_standard_library() {
    let texts = ["", "a", "in/a.wav", "in/in/in", "aaaa", "abcabcab", "música/ü.flac", "xxin"];
    let patterns = ["", "a", "in", "aa", "abc", "ü", "in/", "zz"];
    let withs = ["", "out", "a", "aa"];
    for s in texts {
        for pat in patterns {
            for with in withs {
                assert_eq!(replace(s, pat, with), s.replace(pat, with), "{s:?} {pat:?} {with:?}");
            }
        }
    }
}

#[test]
fn output_path_moves_the_root_and_sets_the_extension() {
    assert_eq!(output_path("in/a.wav", "in", "out"), "out/a.mp3");
    assert_eq!(output_path("in/sub/b.flac", "in", "out"), "out/sub/b.mp3");
    assert_eq!(output_path("/music/raw/a/b/c.wav", "/music/raw", "/music/mp3"), "/music/mp3/a/b/c.mp3");
}

#[test]
fn output_path_rewrites_the_root_text_deeper_in_the_path() {
    assert_eq!(output_path("in/main/x.wav", "in", "out"), "out/maout/x.mp3");
    assert_eq!(output_path("in/in/x.wav", "in", "out"), "out/out/x.mp3");
}

#[test]
fn output_path_replaces_only_the_extension() {
    assert_eq!(output_path("in/wav/a.wav", "in", "out"), "out/wav/a.mp3");
    assert_eq!(output_path("in/b.tar.gz", "in", "out"), "out/b.tar.mp3");
    assert_eq!(output_path("in/a.mp3", "in", "out"), "out/a.mp3");
    assert_eq!(output_path("in/a.", "in", "out"), "out/a.mp3");
}

#[test]
fn output_path_without_an_extension_keeps_the_name() {
    assert_eq!(output_path("in/README", "in", "out"), "out/README");
    assert_eq!(output_path("in/.hidden", "in", "out"), "out/.hidden");
    assert_eq!(output_path("in/v1.2/track", "in", "out"), "out/v1.2/track");
    assert_eq!(output_path("in/..", "in", "out"), "out/..");
    assert_eq!(output_path("", "in", "out"), "");
}

#[test]
fn output_path_with_roots_that_do_not_apply() {
    assert_eq!(output_path("other/a.wav", "in", "out"), "other/a.mp3");
    assert_eq!(output_path("in/a.wav", "in", "in"), "in/a.mp3");
}

#[test]
fn extension_is_what_follows_the_last_dot_of_the_name() {
    assert_eq!(extension("a/b/c.wav"), Some("wav".to_string()));
    assert_eq!(extension("c.tar.gz"), Some("gz".to_string()));
    assert_eq!(extension("a.b/c"), None);
    assert_eq!(extension(".bashrc"), None);
    assert_eq!(extension(".bashrc.bak"), Some("bak".to_string()));
    assert_eq!(extension("name."), Some(String::new()));
    assert_eq!(extension(".."), None);
    assert_eq!(extension("a/.."), None);
    assert_eq!(extension("..a"), Some("a".to_string()));
    assert_eq!(extension(""), None);
    assert_eq!(extension("dir/"), None);
}

#[test]
fn extension_agrees_with_the_standard_library_on_file_paths() {
    let paths = [
        "a.wav", "in/a.wav", "in/sub/b.flac", "x", ".x", "..", "a/..", "a.b/c", "a.b/c.d", "a..b",
        "...", "/a.b", "/", "", "a/.hidden.txt", "ü.ogg", "a.", "..a",
    ];
    for p in paths {
        let expected = Path::new(p).extension().map(|e| e.to_str().unwrap().to_string());
        assert_eq!(extension(p), expected, "{p:?}");
    }
}

#[test]
fn file_name_is_the_last_component() {
    assert_eq!(file_name("out/sub/b.mp3"), "b.mp3");
    assert_eq!(file_name("b.mp3"), "b.mp3");
    assert_eq!(file_name("/b"), "b");
    assert_eq!(file_name("out/"), "");
    assert_eq!(file_name(""), "");
}

#[test]
fn parent_dir_is_what_stands_before_the_last_separator() {
    assert_eq!(parent_dir("out/sub/b.mp3"), Some("out/sub".to_string()));
    assert_eq!(parent_dir("out/a.mp3"), Some("out".to_string()));
    assert_eq!(parent_dir("a.mp3"), Some(String::new()));
    assert_eq!(parent_dir("/a.mp3"), Some("/".to_string()));
    assert_eq!(parent_dir("/"), None);
    assert_eq!(parent_dir(""), None);
}

#[test]
fn parent_dir_agrees_with_the_standard_library_on_file_paths() {
    let paths = ["out/sub/b.mp3", "out/a.mp3", "a.mp3", "/a.mp3", "/", "", "/x/y", "x/y/z.w"];
    for p in paths {
        let expected = Path::new(p).parent().map(|d| d.to_str().unwrap().to_string());
        assert_eq!(parent_dir(p), expected, "{p:?}");
    }
}

#[test]
fn task_knows_its_directory_and_name() {
    let task = ConversionTask::new("in/sub/b.flac", "in", "out");
    assert_eq!(task.input, "in/sub/b.flac");
    assert_eq!(task.output, "out/sub/b.mp3");
    assert_eq!(task.output_directory(), Some("out/sub".to_string()));
    assert_eq!(task.output_name(), "b.mp3");
    assert_eq!(task.transcoder_arguments(), vec!["-i", "in/sub/b.flac", "out/sub/b.mp3", "-nostdin"]);
}

#[test]
fn plan_tasks_for_a_small_tree() {
    let files = vec!["in/a.wav".to_string(), "in/sub/b.flac".to_string()];
    let tasks = plan_tasks("in", "out", &files);
    assert_eq!(
        tasks,
        vec![
            ConversionTask { input: "in/a.wav".to_string(), output: "out/a.mp3".to_string() },
            ConversionTask { input: "in/sub/b.flac".to_string(), output: "out/sub/b.mp3".to_string() },
        ]
    );
    assert_eq!(tasks[1].output_directory(), Some("out/sub".to_string()));
}

#[test]
fn plan_tasks_keeps_order_and_count() {
    let files: Vec<String> = (0..25).map(|i| format!("in/d{}/f{}.wav", i % 3, i)).collect();
    let tasks = plan_tasks("in", "out", &files);
    assert_eq!(tasks.len(), files.len());
    for (i, task) in tasks.iter().enumerate() {
        assert_eq!(task.input, files[i]);
        assert_eq!(task.output, format!("out/d{}/f{}.mp3", i % 3, i));
    }
    assert!(plan_tasks("in", "out", &[]).is_empty());
}
