use local_vectored_llm::chat::{is_whitespace, preview, select_collections};
use local_vectored_llm::error::AppError;
use local_vectored_llm::llm::{answer_prompt, retrieve_documents};
use local_vectored_llm::report::{SaveOutcome, SaveReport};
use local_vectored_llm::strings::{
    code_point, compare_chars, find_after_last, find_char, from_chars, join_strings, lower_equals,
    push_decimal, starts_with, to_ascii_lower, to_chars, Rank,
};

#[test]
fn the_grounded_prompt_has_seven_lines() {
    let context = vec!["一つ目の文".to_string(), "二つ目の文".to_string()];
    let prompt = local_vectored_llm::ollama::build_prompt("空は何色?", &context);
    let expected = format!(
        "{}\n{}\n{}\n{}\n{}\n{}\n{}",
        "以下の [質問] に [参考情報] を踏まえ回答せよ",
        "回答内容の「根拠となる情報源・出典」を冒頭に必ず明示すること",
        "[参考情報] が回答の助けにならないと判断した場合は、憶測や不確かな回答を表示せず [与えられたコンテキストからは回答できません] とだけはっきり回答すること",
        "[参考情報]",
        context.join("\n"),
        "[質問]",
        "空は何色?"
    );
    assert_eq!(prompt, expected);
    assert!(prompt.contains("[与えられたコンテキストからは回答できません]"));
    assert!(prompt.ends_with("[質問]\n空は何色?"));
}

#[test]
fn the_grounded_prompt_without_passages_keeps_its_lines() {
    let prompt = local_vectored_llm::ollama::build_prompt("q", &Vec::new());
    assert_eq!(prompt.lines().count(), 7);
    assert!(prompt.ends_with("[参考情報]\n\n[質問]\nq"));
    let again = local_vectored_llm::ollama::build_prompt("q", &Vec::new());
    assert_eq!(prompt, again);
}

#[test]
fn the_query_prompt_numbers_its_documents() {
    let documents = vec!["first".to_string(), "second\nline".to_string()];
    let context = local_vectored_llm::query::build_context(&documents);
    assert_eq!(
        context,
        "--- ドキュメント 1 ---\nfirst\n\n--- ドキュメント 2 ---\nsecond\nline\n\n"
    );
    let prompt = local_vectored_llm::query::build_prompt(&documents, "なぜ?").unwrap();
    let expected = format!(
        "あなたは役立つアシスタントです。以下の情報を使用してユーザーの質問に答えてください。\n\n\
        コンテキスト情報:\n{}\n\n\
        ユーザーの質問: {}\n\n\
        回答:",
        context, "なぜ?"
    );
    assert_eq!(prompt, expected);
}

#[test]
fn the_query_prompt_needs_documents() {
    assert!(local_vectored_llm::query::build_prompt(&Vec::new(), "q").is_none());
    assert_eq!(local_vectored_llm::query::build_context(&Vec::new()), "");
    let many: Vec<String> = (0..11).map(|i| format!("d{}", i)).collect();
    let context = local_vectored_llm::query::build_context(&many);
    assert!(context.contains("--- ドキュメント 10 ---\nd9\n\n--- ドキュメント 11 ---\nd10\n\n"));
}

#[test]
fn the_plain_prompt_holds_reference_and_question() {
    assert_eq!(retrieve_documents("anything"), "これはダミーの参考情報です。");
    assert_eq!(retrieve_documents(""), retrieve_documents("else"));
    assert_eq!(
        answer_prompt("ref", "q?"),
        format!("以下の情報を参考に質問に答えてください。\n\n[参考情報]\n{}\n\n[質問]\n{}", "ref", "q?")
    );
}

fn names() -> Vec<String> {
    ["root", "pj1", "pj1-dir1", "pj2"].iter().map(|s| s.to_string()).collect()
}

#[test]
fn collections_are_picked_by_number() {
    assert_eq!(select_collections("1,3,4", &names()).unwrap(), vec!["root", "pj1-dir1", "pj2"]);
    assert_eq!(select_collections(" 2 , 1 \n", &names()).unwrap(), vec!["pj1", "root"]);
    assert_eq!(select_collections("4", &names()).unwrap(), vec!["pj2"]);
    assert_eq!(select_collections("+2,002", &names()).unwrap(), vec!["pj1", "pj1"]);
    assert_eq!(select_collections("\u{3000}3\u{a0}", &names()).unwrap(), vec!["pj1-dir1"]);
}

#[test]
fn what_is_no_number_of_the_list_is_passed_over() {
    assert_eq!(
        select_collections("0,5,x,2,,-1,1.0,1 2,++1,+,99999999999999999999999999,3", &names()).unwrap(),
        vec!["pj1", "pj1-dir1"]
    );
    assert_eq!(select_collections(",,1,,", &names()).unwrap(), vec!["root"]);
}

#[test]
fn a_line_that_picks_nothing_is_refused() {
    for line in ["", " ", ",", "0", "5", "a,b", "1;2", "１", "18446744073709551616", "-0"] {
        assert_eq!(
            select_collections(line, &names()).unwrap_err(),
            AppError::InvalidConfiguration("Unexpected collection.".to_string()),
            "for {:?}",
            line
        );
    }
    assert!(select_collections("1", &Vec::new()).is_err());
}

#[test]
fn picking_reads_numbers_as_the_standard_parser_does() {
    let many: Vec<String> = (1..=120).map(|i| format!("c{}", i)).collect();
    for piece in ["7", "07", "+7", " 7", "7 ", "120", "121", "0", "", "+", "-7", "7a", "a7", "1_0", "١"] {
        let expected = piece
            .trim()
            .parse::<usize>()
            .ok()
            .and_then(|n| if n > 0 && n <= many.len() { Some(many[n - 1].clone()) } else { None });
        match select_collections(piece, &many) {
            Ok(chosen) => assert_eq!(Some(chosen[0].clone()), expected, "for {:?}", piece),
            Err(_) => assert_eq!(None, expected, "for {:?}", piece),
        }
    }
}

#[test]
fn white_space_is_what_the_standard_library_says() {
    for code in 0..0x3100u32 {
        if let Some(c) = char::from_u32(code) {
            assert_eq!(is_whitespace(c), c.is_whitespace(), "for U+{:04X}", code);
        }
    }
    assert!(!is_whitespace('\u{feff}'));
    assert!(!is_whitespace('\u{10ffff}'));
}

#[test]
fn previews_are_short_and_on_one_line() {
    assert_eq!(preview("line one\nline two\nline three", 13, ""), "line oneline");
    assert_eq!(preview("line one\nline two\nline three", 14, ""), "line oneline ");
    assert_eq!(preview("line one\nline two", 80, " "), "line one line two");
    assert_eq!(preview("あいうえお", 3, " "), "あいう");
    assert_eq!(preview("\n\n", 1, "<br>"), "<br>");
    assert_eq!(preview("abc", 0, " "), "");
    assert_eq!(preview("", 5, " "), "");
    let text = "文\n章".repeat(40);
    let expected: String = text.chars().take(30).collect::<String>().replace("\n", "");
    assert_eq!(preview(&text, 30, ""), expected);
}

fn outcome(source: &str, error: Option<&str>) -> SaveOutcome {
    SaveOutcome { source: source.to_string(), error: error.map(String::from) }
}

#[test]
fn a_run_is_summed_up() {
    let outcomes = vec![
        outcome("a.txt", None),
        outcome("a.txt", Some("timeout")),
        outcome("b/c.md", None),
        outcome("d.pdf", Some("refused")),
        outcome("d.pdf", Some("refused")),
    ];
    let report = SaveReport::of(&outcomes);
    assert_eq!(report.success_count, 2);
    assert_eq!(report.error_sources, vec!["a.txt", "d.pdf", "d.pdf"]);
    assert_eq!(report.summary(), "Processed: success = 2, failure = 3");
    let empty = SaveReport::of(&Vec::new());
    assert_eq!(empty.success_count, 0);
    assert!(empty.error_sources.is_empty());
    assert_eq!(empty.summary(), "Processed: success = 0, failure = 0");
}

#[test]
fn errors_are_told_with_their_kind() {
    let cases = [
        (AppError::InvalidConfiguration("x".to_string()), "設定が正しくありません: x"),
        (AppError::FileProcessing("x".to_string()), "ファイル処理に失敗しました: x"),
        (AppError::OllamaApi("x".to_string()), "Ollama APIエラー: x"),
        (AppError::ChromaDb("x".to_string()), "Chroma DBエラー: x"),
        (AppError::UnsupportedFileType("docx".to_string()), "サポートされていないファイルタイプ: docx"),
    ];
    for (error, message) in cases {
        assert_eq!(error.message(), message);
    }
}

#[test]
fn texts_are_compared_as_strings_are() {
    let samples = ["", "a", "ab", "b", "B", "é", "e\u{301}", "あ", "\u{ffff}", "\u{10000}", "a\u{0}"];
    for a in samples {
        for b in samples {
            let expected = match a.cmp(b) {
                std::cmp::Ordering::Less => Rank::Before,
                std::cmp::Ordering::Equal => Rank::Same,
                std::cmp::Ordering::Greater => Rank::After,
            };
            assert_eq!(compare_chars(&to_chars(a), &to_chars(b)), expected, "{:?} and {:?}", a, b);
        }
    }
}

#[test]
fn characters_are_found_and_put_together() {
    let chars = to_chars("a/b.c/d.e");
    assert_eq!(chars, vec!['a', '/', 'b', '.', 'c', '/', 'd', '.', 'e']);
    assert_eq!(from_chars(&chars, 2, 5), "b.c");
    assert_eq!(from_chars(&chars, 4, 4), "");
    assert_eq!(find_char(&chars, 0, '/'), 1);
    assert_eq!(find_char(&chars, 2, '/'), 5);
    assert_eq!(find_char(&chars, 6, '/'), 9);
    assert_eq!(find_char(&chars, 9, '/'), 9);
    assert_eq!(find_after_last(&chars, 0, 9, '/'), 6);
    assert_eq!(find_after_last(&chars, 6, 9, '/'), 6);
    assert_eq!(find_after_last(&chars, 0, 9, '.'), 8);
    assert_eq!(find_after_last(&chars, 0, 7, '.'), 4);
    assert_eq!(find_after_last(&chars, 0, 5, '/'), 2);
    assert_eq!(find_after_last(&chars, 0, 9, 'x'), 0);
    assert_eq!(find_after_last(&chars, 3, 9, 'a'), 3);
    assert_eq!(find_after_last(&chars, 4, 4, '.'), 4);
    assert!(starts_with(&chars, &to_chars("a/b")));
    assert!(starts_with(&chars, &to_chars("")));
    assert!(!starts_with(&chars, &to_chars("a/c")));
    assert!(!starts_with(&chars, &to_chars("a/b.c/d.e/")));
    assert!(lower_equals(&to_chars("x.TxT"), 2, 5, "txt"));
    assert!(!lower_equals(&to_chars("x.TxT"), 1, 5, "txt"));
    assert!(!lower_equals(&to_chars("x.TxT"), 2, 4, "txt"));
    assert!(lower_equals(&to_chars("x.TxT/"), 2, 5, "txt"));
    assert_eq!(to_ascii_lower('Q'), 'q');
    assert_eq!(to_ascii_lower('q'), 'q');
    assert_eq!(to_ascii_lower('['), '[');
    assert_eq!(to_ascii_lower('@'), '@');
    assert_eq!(to_ascii_lower('É'), 'É');
    assert_eq!(code_point('あ'), 0x3042);
}

#[test]
fn numbers_are_written_in_decimal() {
    for n in [0usize, 1, 9, 10, 11, 99, 100, 12345, usize::MAX] {
        let mut text = String::from("n=");
        push_decimal(&mut text, n);
        assert_eq!(text, format!("n={}", n));
    }
    let parts = vec!["a".to_string(), "".to_string(), "c".to_string()];
    assert_eq!(join_strings(&parts, ", "), "a, , c");
    assert_eq!(join_strings(&Vec::new(), ", "), "");
    assert_eq!(join_strings(&parts[..1].to_vec(), ", "), "a");
}
