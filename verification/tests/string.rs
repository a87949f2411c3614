use librualg::string::{
    aho_corasick, common_substring, distinct_substrings, hash, kmp, kmp_first,
    levenshtein_distance, minimum_string_period, prefix_function, suffix_array, z_function, Lcp,
};

#[test]
fn test_kmp() {
    assert_eq!(kmp("ababcxabdabcxabcxabcde", "abcxabcde"), vec![13]);
    assert_eq!(kmp("a", "ab"), vec![]);
    assert_eq!(kmp("aaaaa", "a"), vec![0, 1, 2, 3, 4]);
    assert_eq!(kmp("abcdabcd", "abc"), vec![0, 4]);
}

#[test]
fn test_kmp_first() {
    assert_eq!(kmp_first("ababcxabdabcxabcxabcde", "abcxabcde"), Some(13));
    assert_eq!(kmp_first("a", "ab"), None);
    assert_eq!(kmp_first("aaaaa", "a"), Some(0));
    assert_eq!(kmp_first("ebcdabcd", "abc"), Some(4));
}

#[test]
fn test_levenshtein_distance() {
    assert_eq!(levenshtein_distance("POLYNOMIAL", "EXPONENTIAL", 1, 1, 1), 6);
    assert_eq!(levenshtein_distance("abcdasdasd", "cddabcd", 1, 1, 1), 6);
    assert_eq!(levenshtein_distance("", "", 1, 1, 1), 0);
    assert_eq!(levenshtein_distance("aaa", "aaa", 1, 1, 1), 0);
    assert_eq!(levenshtein_distance("", "aaa", 1, 1, 1), 3);
}

#[test]
fn test_minimum_string_period() {
    assert_eq!(minimum_string_period("abcabcabca"), "abc");
    assert_eq!(minimum_string_period("abcdefg"), "abcdefg");
    assert_eq!(minimum_string_period("abcabcabcd"), "abcabcabcd");
    assert_eq!(minimum_string_period(""), "");
}

#[test]
fn test_distinct_substrings() {
    assert_eq!(distinct_substrings("a"), vec!["a"]);
    assert_eq!(distinct_substrings("aaaa"), vec!["a", "aa", "aaa", "aaaa"]);
    assert_eq!(distinct_substrings(""), Vec::<&str>::new());
    let mut values = distinct_substrings("abaaba");
    values.sort();
    assert_eq!(
        values,
        vec![
            "a", "aa", "aab", "aaba", "ab", "aba", "abaa", "abaab", "abaaba", "b", "ba", "baa",
            "baab", "baaba"
        ]
    );
    assert_eq!(distinct_substrings("abacabadabacaba").len(), 85);
}

#[test]
fn test_prefix_function() {
    assert_eq!(prefix_function("abacaba"), [0, 0, 1, 0, 1, 2, 3]);
    assert_eq!(prefix_function("b"), [0]);
    assert_eq!(prefix_function("aaaaa"), [0, 1, 2, 3, 4]);
    assert_eq!(prefix_function(""), []);
}

#[test]
fn test_z_function_ascii() {
    assert_eq!(z_function("abacaba"), [0, 0, 1, 0, 3, 0, 1]);
}

#[test]
fn test_suffix_array() {
    assert_eq!(suffix_array("ababba$").0, vec![6, 5, 0, 2, 4, 1, 3]);
    assert_eq!(suffix_array("bababa$").0, vec![6, 5, 3, 1, 4, 2, 0]);
}

#[test]
fn test_lcp() {
    let (p, c) = suffix_array("ababba$");
    let data = Lcp::build(&p, &c, "ababba$");
    assert_eq!(data.lcp(0, 5), Some(1));
    assert_eq!(data.lcp(0, 1), Some(0));
    assert_eq!(data.lcp(1, 4), Some(2));
    assert_eq!(data.lcp(3, 4), Some(1));
    assert_eq!(data.lcp(4, 1), Some(2));
    assert_eq!(data.lcp(1, 11), None);

    assert_eq!(data.lcp(3, 3), Some(3));
    assert_eq!(data.lcp(0, 0), Some(6));
}

#[test]
fn test_hash() {
    hash("");
    hash("a");
    hash("abc");
    assert_eq!(hash("abcdabcd"), 2842022591228);
}

#[test]
fn test_common_substring() {
    assert_eq!(
        common_substring("VOTEFORTHEGREATALBANIAFORYOU", "CHOOSETHEGREATALBANIANFUTURE"),
        Some("THEGREATALBANIA")
    );
    assert_eq!(common_substring("aba", "cabdd"), Some("ab"));
    assert_eq!(common_substring("aaaaa", "bbaaa"), Some("aaa"));
    assert_eq!(common_substring("", "bbaaa"), None);
    assert_eq!(common_substring("abcde", "abcde"), Some("abcde"));
    assert_eq!(
        common_substring("aaaaaaaaaaaaaaaaaaaaaaaaab", "aaaaaaaaaaaaaaaaaaaaaaaaac"),
        Some("aaaaaaaaaaaaaaaaaaaaaaaaa")
    );
}

#[test]
fn test_aho_corasick() {
    let mut dict = ["aba", "abb", "bbca"];
    let t = "abaabbbbca";
    let mut res = aho_corasick(&dict, t);
    assert_eq!(res, vec![vec![0], vec![3], vec![6]]);

    let t = "abaabbbbcaaba";
    res = aho_corasick(&dict, t);
    assert_eq!(res, vec![vec![0, 10], vec![3], vec![6]]);

    let t = "abaabbbbcaba";
    res = aho_corasick(&dict, t);
    assert_eq!(res, vec![vec![0, 9], vec![3], vec![6]]);

    dict = ["abba", "bb", "cc"];
    let t = "abba";
    res = aho_corasick(&dict, t);
    assert_eq!(res, vec![vec![0], vec![1], vec![]]);

    dict = ["aba", "baba", "cc"];
    let t = "ababababa";
    res = aho_corasick(&dict, t);
    assert_eq!(res, vec![vec![0, 2, 4, 6], vec![1, 3, 5], vec![]]);
}
